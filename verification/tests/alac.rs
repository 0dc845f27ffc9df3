use mzk::m4a::alac::Alac;
use mzk::m4a::mp4::AlacConfig;

fn decoder(frame_length: u32, bit_depth: u8) -> Alac {
    Alac::new(&AlacConfig {
        frame_length,
        bit_depth,
        pb: 40,
        mb: 10,
        kb: 14,
        num_channels: 2,
        sample_rate: 44100,
    })
}

#[test]
fn alac_mono_rice_with_zero_run() {
    let pkt = [0u8, 0, 16, 0, 0, 0, 4, 19, 0, 12];
    assert_eq!(decoder(4096, 16).decode_packet(&pkt), vec![0, -2]);
}

#[test]
fn alac_stereo_adaptive_predictor_and_unmixing() {
    let pkt = [
        32u8, 0, 16, 0, 0, 0, 16, 4, 6, 19, 4, 2, 89, 255, 56, 19, 2, 4, 1, 255, 1, 19, 127, 193,
        35, 127, 240, 108, 127, 252, 25, 173, 255, 6, 28, 127, 192, 32, 95, 240, 32, 167, 252, 3,
        197, 255, 3, 246, 255, 193, 133, 159, 240, 57, 143, 252, 15, 29, 255, 5, 54, 127, 192,
        194, 95, 240, 100, 247, 252, 6, 182,
    ];
    assert_eq!(
        decoder(4096, 16).decode_packet(&pkt),
        vec![22, 1037, -755, -1298, -2721, -2343, 593, 2, 2277, 356, 156, -2539, 1212, -3098, 2486, -1397]
    );
}

#[test]
fn alac_mono_shifted_with_running_sum() {
    let mut pkt = vec![0u8, 0, 20, 0, 0, 0, 10, 8, 190];
    pkt.extend_from_slice(&[0u8; 62]);
    pkt.extend_from_slice(&[2, 4, 6, 9, 254, 22, 85, 50, 72, 222]);
    assert_eq!(decoder(4096, 16).decode_packet(&pkt), vec![1, 2, -509, -508, -257]);
}

#[test]
fn alac_stereo_verbatim_samples_are_shifted() {
    let pkt = [32u8, 0, 22, 0, 0, 0, 4, 0, 11, 255, 245, 0, 0, 255, 254];
    assert_eq!(
        decoder(4096, 16).decode_packet(&pkt),
        vec![1280, -1536, -8388608, 8388352]
    );
}

#[test]
fn alac_other_channel_tags_give_nothing() {
    let pkt = [0x40u8, 0, 0, 0, 0, 0, 0, 0];
    assert!(decoder(4096, 16).decode_packet(&pkt).is_empty());
}

#[test]
fn alac_packet_longer_than_frame_gives_nothing() {
    let pkt = [0u8, 0, 16, 0, 0, 0, 4, 19, 0, 12];
    assert!(decoder(1, 16).decode_packet(&pkt).is_empty());
}

#[test]
fn alac_configuration_is_kept() {
    let mut d = decoder(4096, 24);
    d.reset();
    assert_eq!(d.frame_length(), 4096);
    assert_eq!(d.bit_depth(), 24);
}

#[test]
fn alac_whole_frame_without_partial_bit() {
    let pkt = [0u8, 0, 2, 11, 0xF4];
    let out = decoder(2, 8).decode_packet(&pkt);
    assert_eq!(out.len(), 2);
    assert_eq!(out, vec![5, -6]);
}

#[test]
fn alac_channels_and_rate_do_not_change_decoding() {
    let pkt = [0u8, 0, 16, 0, 0, 0, 4, 19, 0, 12];
    let other = Alac::new(&AlacConfig {
        frame_length: 4096,
        bit_depth: 16,
        pb: 40,
        mb: 10,
        kb: 14,
        num_channels: 1,
        sample_rate: 8000,
    });
    let mut a = decoder(4096, 16);
    let first = a.decode_packet(&pkt);
    a.reset();
    assert_eq!(a.decode_packet(&pkt), first);
    assert_eq!(other.decode_packet(&pkt), first);
}
