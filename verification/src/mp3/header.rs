//! MPEG-1/2/2.5 audio frame headers (ISO/IEC 11172-3, 13818-3): field
//! access, validity, frame sizes, and the search for the first frame.
use vstd::prelude::*;
use crate::arith::{bit_field, get_field};
use vstd::arithmetic::power2::pow2;

verus! {

pub const HDR_SIZE: usize = 4;
pub const MAX_FREE_FORMAT_FRAME_SIZE: usize = 2304;
pub const MAX_FRAME_SYNC_MATCHES: usize = 10;

/// Bits `shift .. shift + width` of header byte `i`.
pub open spec fn field(h: Seq<u8>, i: int, shift: nat, width: nat) -> nat {
    bit_field(h[i], shift, width)
}

/// Layer field: 3 for Layer I, 2 for Layer II, 1 for Layer III, 0 reserved.
pub open spec fn layer_bits(h: Seq<u8>) -> nat {
    field(h, 1, 1, 2)
}

/// Version bit set: MPEG-1 (or the reserved version).
pub open spec fn mpeg1_bit(h: Seq<u8>) -> bool {
    field(h, 1, 3, 1) == 1
}

/// Version bit clear only for MPEG-2.5.
pub open spec fn not_mpeg25_bit(h: Seq<u8>) -> bool {
    field(h, 1, 4, 1) == 1
}

pub open spec fn bitrate_index(h: Seq<u8>) -> nat {
    field(h, 2, 4, 4)
}

pub open spec fn rate_index(h: Seq<u8>) -> nat {
    field(h, 2, 2, 2)
}

pub open spec fn padding_bit(h: Seq<u8>) -> bool {
    field(h, 2, 1, 1) == 1
}

/// Channel mode: 0 stereo, 1 joint stereo, 2 dual channel, 3 mono.
pub open spec fn channel_mode(h: Seq<u8>) -> nat {
    field(h, 3, 6, 2)
}

pub open spec fn spec_layer1(h: Seq<u8>) -> bool {
    layer_bits(h) == 3
}

/// Layer III outside MPEG-1: granules of 576 samples.
pub open spec fn spec_frame_576(h: Seq<u8>) -> bool {
    field(h, 1, 1, 3) == 1
}

/// Sync word, a known version and layer, a usable bitrate and rate index.
pub open spec fn spec_valid(h: Seq<u8>) -> bool {
    &&& h.len() >= 4
    &&& h[0] == 0xff
    &&& (field(h, 1, 4, 4) == 15 || field(h, 1, 1, 7) == 0x71)
    &&& layer_bits(h) != 0
    &&& bitrate_index(h) != 15
    &&& rate_index(h) != 3
}

/// Two headers describe the same stream: same version, layer and CRC use,
/// same rate, and both free-format or both not.
pub open spec fn spec_compare(h1: Seq<u8>, h2: Seq<u8>) -> bool {
    &&& spec_valid(h2)
    &&& field(h1, 1, 1, 7) == field(h2, 1, 1, 7)
    &&& rate_index(h1) == rate_index(h2)
    &&& (bitrate_index(h1) == 0) == (bitrate_index(h2) == 0)
}

/// Half the bitrate in kbit/s, by `[mpeg1][layer - 1][bitrate index]`.
pub open spec fn halfrate_table() -> Seq<int> {
    seq![
        0, 4, 8, 12, 16, 20, 24, 28, 32, 40, 48, 56, 64, 72, 80,
        0, 4, 8, 12, 16, 20, 24, 28, 32, 40, 48, 56, 64, 72, 80,
        0, 16, 24, 28, 32, 40, 48, 56, 64, 72, 80, 88, 96, 112, 128,
        0, 16, 20, 24, 28, 32, 40, 48, 56, 64, 80, 96, 112, 128, 160,
        0, 16, 24, 28, 32, 40, 48, 56, 64, 80, 96, 112, 128, 160, 192,
        0, 16, 32, 48, 64, 80, 96, 112, 128, 144, 160, 176, 192, 208, 224,
    ]
}

/// The header's bitrate in kbit/s (0 for free format).
pub open spec fn spec_bitrate_kbps(h: Seq<u8>) -> int {
    let v: int = if mpeg1_bit(h) { 1 } else { 0 };
    2 * halfrate_table()[(v * 3 + layer_bits(h) - 1) * 15 + bitrate_index(h)]
}

pub open spec fn base_rate(i: nat) -> int {
    if i == 0 {
        44100
    } else if i == 1 {
        48000
    } else {
        32000
    }
}

/// The sampling rate in Hz: the MPEG-1 rate, halved for MPEG-2 and again
/// for MPEG-2.5.
pub open spec fn spec_sample_rate_hz(h: Seq<u8>) -> int {
    let a = if mpeg1_bit(h) { base_rate(rate_index(h)) } else { base_rate(rate_index(h)) / 2 };
    if not_mpeg25_bit(h) { a } else { a / 2 }
}

pub open spec fn spec_frame_samples(h: Seq<u8>) -> int {
    if spec_layer1(h) {
        384
    } else if spec_frame_576(h) {
        576
    } else {
        1152
    }
}

/// Frame length in bytes without padding; `free` where the header gives none.
pub open spec fn spec_frame_bytes(h: Seq<u8>, free: int) -> int {
    let fb0 = spec_frame_samples(h) * spec_bitrate_kbps(h) * 125 / spec_sample_rate_hz(h);
    let fb = if spec_layer1(h) { fb0 / 4 * 4 } else { fb0 };
    if fb != 0 {
        fb
    } else {
        free
    }
}

pub open spec fn spec_padding(h: Seq<u8>) -> int {
    if padding_bit(h) {
        if spec_layer1(h) {
            4
        } else {
            1
        }
    } else {
        0
    }
}

/// The fields that size a frame are usable.
pub open spec fn sizable(h: Seq<u8>) -> bool {
    &&& h.len() >= 4
    &&& layer_bits(h) != 0
    &&& bitrate_index(h) != 15
    &&& rate_index(h) != 3
}

pub fn is_mono(h: &[u8]) -> (r: bool)
    requires
        h@.len() >= 4,
    ensures
        r == (channel_mode(h@) == 3),
{
    get_field(h[3], 6, 2) == 3
}

/// Joint stereo with the mid/side extension bit.
pub fn is_ms_stereo(h: &[u8]) -> (r: bool)
    requires
        h@.len() >= 4,
    ensures
        r == (field(h@, 3, 5, 3) == 3),
{
    get_field(h[3], 5, 3) == 3
}

pub fn is_free_format(h: &[u8]) -> (r: bool)
    requires
        h@.len() >= 3,
    ensures
        r == (bitrate_index(h@) == 0),
{
    get_field(h[2], 4, 4) == 0
}

/// Protection bit clear: a CRC follows the header.
pub fn is_crc(h: &[u8]) -> (r: bool)
    requires
        h@.len() >= 2,
    ensures
        r == (field(h@, 1, 0, 1) == 0),
{
    get_field(h[1], 0, 1) == 0
}

fn test_padding(h: &[u8]) -> (r: bool)
    requires
        h@.len() >= 3,
    ensures
        r == padding_bit(h@),
{
    get_field(h[2], 1, 1) == 1
}

pub fn test_mpeg1(h: &[u8]) -> (r: bool)
    requires
        h@.len() >= 2,
    ensures
        r == mpeg1_bit(h@),
{
    get_field(h[1], 3, 1) == 1
}

fn test_not_mpeg25(h: &[u8]) -> (r: bool)
    requires
        h@.len() >= 2,
    ensures
        r == not_mpeg25_bit(h@),
{
    get_field(h[1], 4, 1) == 1
}

pub fn test_i_stereo(h: &[u8]) -> (r: bool)
    requires
        h@.len() >= 4,
    ensures
        r == (field(h@, 3, 4, 1) == 1),
{
    get_field(h[3], 4, 1) == 1
}

pub fn test_ms_stereo(h: &[u8]) -> (r: bool)
    requires
        h@.len() >= 4,
    ensures
        r == (field(h@, 3, 5, 1) == 1),
{
    get_field(h[3], 5, 1) == 1
}

pub fn get_layer(h: &[u8]) -> (r: u32)
    requires
        h@.len() >= 2,
    ensures
        r == layer_bits(h@),
{
    get_field(h[1], 1, 2) as u32
}

fn get_bitrate(h: &[u8]) -> (r: usize)
    requires
        h@.len() >= 3,
    ensures
        r == bitrate_index(h@),
{
    get_field(h[2], 4, 4) as usize
}

fn get_sample_rate(h: &[u8]) -> (r: usize)
    requires
        h@.len() >= 3,
    ensures
        r == rate_index(h@),
{
    get_field(h[2], 2, 2) as usize
}

/// Index into the nine rates, MPEG-2.5 first: `rate index + 3 * (version bits set)`.
pub fn get_my_sample_rate(h: &[u8]) -> (r: usize)
    requires
        h@.len() >= 3,
    ensures
        r == rate_index(h@) + (field(h@, 1, 3, 1) + field(h@, 1, 4, 1)) * 3,
        r <= 9,
{
    proof {
        vstd::arithmetic::power2::lemma2_to64();
    }
    get_sample_rate(h) + (get_field(h[1], 3, 1) as usize + get_field(h[1], 4, 1) as usize) * 3
}

fn is_frame_576(h: &[u8]) -> (r: bool)
    requires
        h@.len() >= 2,
    ensures
        r == spec_frame_576(h@),
{
    get_field(h[1], 1, 3) == 1
}

fn is_layer_1(h: &[u8]) -> (r: bool)
    requires
        h@.len() >= 2,
    ensures
        r == spec_layer1(h@),
{
    get_field(h[1], 1, 2) == 3
}

pub fn valid(h: &[u8]) -> (r: bool)
    requires
        h@.len() >= 4,
    ensures
        r == spec_valid(h@),
{
    h[0] == 0xff
        && (get_field(h[1], 4, 4) == 15 || get_field(h[1], 1, 7) == 0x71)
        && get_layer(h) != 0
        && get_bitrate(h) != 15
        && get_sample_rate(h) != 3
}

pub fn compare(h1: &[u8], h2: &[u8]) -> (r: bool)
    requires
        h1@.len() >= 4,
        h2@.len() >= 4,
    ensures
        r == spec_compare(h1@, h2@),
{
    valid(h2)
        && get_field(h1[1], 1, 7) == get_field(h2[1], 1, 7)
        && get_sample_rate(h1) == get_sample_rate(h2)
        && is_free_format(h1) == is_free_format(h2)
}

/// Bitrate in kbit/s from the version, layer and bitrate index.
pub fn bitrate_kbps(h: &[u8]) -> (r: usize)
    requires
        sizable(h@),
    ensures
        r == spec_bitrate_kbps(h@),
        r <= 448,
{
    let halfrate: [u8; 90] = [
        0, 4, 8, 12, 16, 20, 24, 28, 32, 40, 48, 56, 64, 72, 80,
        0, 4, 8, 12, 16, 20, 24, 28, 32, 40, 48, 56, 64, 72, 80,
        0, 16, 24, 28, 32, 40, 48, 56, 64, 72, 80, 88, 96, 112, 128,
        0, 16, 20, 24, 28, 32, 40, 48, 56, 64, 80, 96, 112, 128, 160,
        0, 16, 24, 28, 32, 40, 48, 56, 64, 80, 96, 112, 128, 160, 192,
        0, 16, 32, 48, 64, 80, 96, 112, 128, 144, 160, 176, 192, 208, 224,
    ];
    assert(halfrate@.map_values(|x: u8| x as int) =~= halfrate_table());
    let v: usize = if test_mpeg1(h) { 1 } else { 0 };
    let layer = get_layer(h) as usize;
    let br = get_bitrate(h);
    proof {
        vstd::arithmetic::power2::lemma2_to64();
        assert(layer <= 3 && br < 15);
    }
    let idx = (v * 3 + layer - 1) * 15 + br;
    assert(halfrate@[idx as int] as int == halfrate_table()[idx as int]);
    assert(halfrate_table()[idx as int] <= 224);
    2 * halfrate[idx] as usize
}

/// Sampling rate in Hz.
pub fn sample_rate_hz(h: &[u8]) -> (r: u32)
    requires
        h@.len() >= 3,
        rate_index(h@) != 3,
    ensures
        r == spec_sample_rate_hz(h@),
        8000 <= r <= 48000,
{
    let hz: [u32; 3] = [44100, 48000, 32000];
    let i = get_sample_rate(h);
    proof {
        vstd::arithmetic::power2::lemma2_to64();
    }
    let mut r = hz[i];
    assert(r == base_rate(i as nat));
    if !test_mpeg1(h) {
        r = r / 2;
    }
    if !test_not_mpeg25(h) {
        r = r / 2;
    }
    r
}

/// Samples per frame: 384 for Layer I, 576 for Layer III outside MPEG-1,
/// 1152 otherwise.
pub fn frame_samples(h: &[u8]) -> (r: usize)
    requires
        h@.len() >= 2,
    ensures
        r == spec_frame_samples(h@),
{
    if is_layer_1(h) {
        384
    } else if is_frame_576(h) {
        576
    } else {
        1152
    }
}

/// Frame length in bytes, padding excluded; `free_format_size` for a
/// free-format header.
pub fn frame_bytes(h: &[u8], free_format_size: usize) -> (r: usize)
    requires
        sizable(h@),
    ensures
        r == spec_frame_bytes(h@, free_format_size as int),
        r != free_format_size ==> 0 < r <= 8064,
{
    let samples = frame_samples(h);
    let kbps = bitrate_kbps(h);
    let hz = sample_rate_hz(h);
    assert(samples * kbps * 125 <= 1152 * 448 * 125) by (nonlinear_arith)
        requires samples <= 1152, kbps <= 448;
    let mut fb = samples * kbps * 125 / hz as usize;
    assert(fb <= 8064) by (nonlinear_arith)
        requires fb == samples * kbps * 125 / (hz as int), samples * kbps * 125 <= 1152 * 448 * 125, hz >= 8000;
    if is_layer_1(h) {
        fb = fb / 4 * 4;
    }
    if fb != 0 {
        fb
    } else {
        free_format_size
    }
}

/// Padding bytes added to this frame: a 4-byte slot for Layer I, 1 otherwise.
pub fn padding(h: &[u8]) -> (r: usize)
    requires
        h@.len() >= 3,
    ensures
        r == spec_padding(h@),
        r <= 4,
{
    if test_padding(h) {
        if is_layer_1(h) {
            4
        } else {
            1
        }
    } else {
        0
    }
}

/// Whether the frames that follow the frame at `i` keep matching it: after
/// `nmatch` matches, step over the frame at `i` and test the next header.
/// Running out of data after at least one match counts as a match.
pub open spec fn match_from(s: Seq<u8>, free: int, i: int, nmatch: int) -> bool
    decreases MAX_FRAME_SYNC_MATCHES - nmatch,
{
    if nmatch >= MAX_FRAME_SYNC_MATCHES || i < 0 {
        nmatch >= MAX_FRAME_SYNC_MATCHES
    } else {
        let j = i + spec_frame_bytes(s.skip(i), free) + spec_padding(s.skip(i));
        if j + HDR_SIZE > s.len() {
            nmatch > 0
        } else if !spec_compare(s, s.skip(j)) {
            false
        } else {
            match_from(s, free, j, nmatch + 1)
        }
    }
}

fn match_frame(mp3: &[u8], frame_bytes_in: usize) -> (r: bool)
    requires
        spec_valid(mp3@),
        mp3@.len() + frame_bytes_in + 0x4000 <= usize::MAX,
    ensures
        r == match_from(mp3@, frame_bytes_in as int, 0, 0),
{
    let mp3_bytes = mp3.len();
    let mut i: usize = 0;
    let mut nmatch: usize = 0;
    while nmatch < MAX_FRAME_SYNC_MATCHES
        invariant
            mp3_bytes == mp3@.len(),
            mp3_bytes + frame_bytes_in + 0x4000 <= usize::MAX,
            nmatch <= MAX_FRAME_SYNC_MATCHES,
            i + HDR_SIZE <= mp3_bytes,
            sizable(mp3@.skip(i as int)),
            match_from(mp3@, frame_bytes_in as int, 0, 0)
                == match_from(mp3@, frame_bytes_in as int, i as int, nmatch as int),
        decreases MAX_FRAME_SYNC_MATCHES - nmatch,
    {
        let h = &mp3[i..mp3_bytes];
        assert(h@ =~= mp3@.skip(i as int));
        let step = frame_bytes(h, frame_bytes_in) + padding(h);
        i = i + step;
        if i + HDR_SIZE > mp3_bytes {
            return nmatch > 0;
        }
        let next = &mp3[i..mp3_bytes];
        assert(next@ =~= mp3@.skip(i as int));
        if !compare(mp3, next) {
            return false;
        }
        nmatch = nmatch + 1;
    }
    true
}

/// The free-format probe: the first `k` at which a header matching `h`
/// stands, followed by another one frame later, fixes the frame size.
/// State: (frame bytes, frame bytes with padding, free-format size).
pub open spec fn ff_scan(s: Seq<u8>, i: int, h: Seq<u8>, k: int, st: (int, int, int)) -> (int, int, int)
    decreases MAX_FREE_FORMAT_FRAME_SIZE - k,
{
    if !(st.0 == 0 && k < MAX_FREE_FORMAT_FRAME_SIZE && i + 2 * k < s.len() - HDR_SIZE) || k < 0 {
        st
    } else {
        let st2 = if spec_compare(h, s.skip(i + k)) {
            let cand = k - spec_padding(h);
            let nextfb = cand + spec_padding(s.skip(i + k));
            if i + k + nextfb + HDR_SIZE > s.len() || !spec_compare(h, s.skip(i + k + nextfb)) {
                st
            } else {
                (cand, k, cand)
            }
        } else {
            st
        };
        ff_scan(s, i, h, k + 1, st2)
    }
}

/// The search from offset `i` on: (frame offset, frame length with padding,
/// free-format size to keep).
pub open spec fn find_from(s: Seq<u8>, free: int, i: int) -> (int, int, int)
    decreases s.len() - i,
{
    if i >= s.len() - HDR_SIZE || i < 0 {
        (s.len() as int, 0, free)
    } else {
        let h = s.skip(i);
        if !spec_valid(h) {
            find_from(s, free, i + 1)
        } else {
            let fb = spec_frame_bytes(h, free);
            let st = ff_scan(s, i, h, HDR_SIZE as int, (fb, fb + spec_padding(h), free));
            if (st.0 != 0 && i + st.1 <= s.len() && match_from(s.skip(i), st.0, 0, 0))
                || (i == 0 && st.1 == s.len()) {
                (i, st.1, st.2)
            } else {
                find_from(s, 0, i + 1)
            }
        }
    }
}

/// The first frame of `s`: its offset and length, and the free-format size
/// that the search settled on.
pub open spec fn spec_find_frame(s: Seq<u8>, free: int) -> (int, int, int) {
    if s.len() < HDR_SIZE {
        (s.len() as int, 0, free)
    } else {
        find_from(s, free, 0)
    }
}

/// Finds the first frame header that a run of matching headers confirms
/// (or that fills the whole buffer). Returns its offset and length with
/// padding, or `(mp3.len(), 0)`; `free_format_bytes` carries the
/// free-format frame size between calls.
pub fn find_frame(mp3: &[u8], free_format_bytes: &mut usize) -> (r: (usize, usize))
    requires
        mp3@.len() + *old(free_format_bytes) + 0x10000 <= usize::MAX,
    ensures
        (r.0 as int, r.1 as int, *final(free_format_bytes) as int)
            == spec_find_frame(mp3@, *old(free_format_bytes) as int),
{
    let mp3_bytes = mp3.len();
    if mp3_bytes < HDR_SIZE {
        return (mp3_bytes, 0);
    }
    let ghost free0 = *free_format_bytes as int;
    let mut i: usize = 0;
    while i < mp3_bytes - HDR_SIZE
        invariant
            mp3_bytes == mp3@.len(),
            mp3_bytes >= HDR_SIZE,
            i <= mp3_bytes - HDR_SIZE,
            mp3_bytes + *free_format_bytes + 0x10000 <= usize::MAX,
            find_from(mp3@, free0, 0) == find_from(mp3@, *free_format_bytes as int, i as int),
            free0 == *old(free_format_bytes),
        decreases mp3_bytes - i,
    {
        let h = &mp3[i..mp3_bytes];
        assert(h@ =~= mp3@.skip(i as int));
        if valid(h) {
            let ghost free_i = *free_format_bytes as int;
            let mut fb = frame_bytes(h, *free_format_bytes);
            let mut frame_and_padding = fb + padding(h);
            let ghost st0 = (fb as int, frame_and_padding as int, free_i);
            let mut k: usize = HDR_SIZE;
            while fb == 0 && k < MAX_FREE_FORMAT_FRAME_SIZE && i + 2 * k < mp3_bytes - HDR_SIZE
                invariant
                    mp3_bytes == mp3@.len(),
                    mp3_bytes >= HDR_SIZE,
                    i < mp3_bytes - HDR_SIZE,
                    h@ == mp3@.skip(i as int),
                    spec_valid(h@),
                    HDR_SIZE <= k <= MAX_FREE_FORMAT_FRAME_SIZE,
                    fb == 0 ==> *free_format_bytes == 0 && free_i == 0,
                    fb <= free_i || fb <= 8064,
                    frame_and_padding <= fb + 4,
                    mp3_bytes + free_i + 0x10000 <= usize::MAX,
                    fb != 0 ==> *free_format_bytes == free_i || *free_format_bytes == fb,
                    ff_scan(mp3@, i as int, h@, HDR_SIZE as int, st0) == ff_scan(
                        mp3@,
                        i as int,
                        h@,
                        k as int,
                        (fb as int, frame_and_padding as int, *free_format_bytes as int),
                    ),
                decreases MAX_FREE_FORMAT_FRAME_SIZE - k,
            {
                let hk = &mp3[i + k..mp3_bytes];
                assert(hk@ =~= mp3@.skip(i + k));
                if compare(h, hk) {
                    let cand = k - padding(h);
                    let nextfb = cand + padding(hk);
                    if i + k + nextfb + HDR_SIZE > mp3_bytes {
                        k += 1;
                        continue;
                    }
                    let hn = &mp3[i + k + nextfb..mp3_bytes];
                    assert(hn@ =~= mp3@.skip(i + k + nextfb));
                    if !compare(h, hn) {
                        k += 1;
                        continue;
                    }
                    frame_and_padding = k;
                    fb = cand;
                    *free_format_bytes = cand;
                }
                k += 1;
            }
            let ghost st = (fb as int, frame_and_padding as int, *free_format_bytes as int);
            assert(st == ff_scan(mp3@, i as int, h@, HDR_SIZE as int, st0));
            assert(h@.len() == mp3_bytes - i);
            if (fb != 0 && i + frame_and_padding <= mp3_bytes && match_frame(h, fb))
                || (i == 0 && frame_and_padding == mp3_bytes) {
                assert(find_from(mp3@, free_i, i as int) == (i as int, st.1, st.2));
                return (i, frame_and_padding);
            }
            assert(find_from(mp3@, free_i, i as int) == find_from(mp3@, 0, i + 1));
            *free_format_bytes = 0;
        } else {
            assert(find_from(mp3@, *free_format_bytes as int, i as int)
                == find_from(mp3@, *free_format_bytes as int, i + 1));
        }
        i += 1;
    }
    (mp3_bytes, 0)
}

/// Length of an ID3v2 tag at the start of `data` (its 10-byte header and the
/// sync-safe size), or 0 where there is none.
pub open spec fn spec_skip_id3v2(d: Seq<u8>) -> int {
    if d.len() > 10 && d[0] == 0x49 && d[1] == 0x44 && d[2] == 0x33 {
        10 + (d[6] % 128) * 0x20_0000 + (d[7] % 128) * 0x4000 + (d[8] % 128) * 0x80 + d[9] % 128
    } else {
        0
    }
}

pub fn skip_id3v2(data: &[u8]) -> (r: usize)
    ensures
        r == spec_skip_id3v2(data@),
{
    if data.len() > 10 && data[0] == 0x49 && data[1] == 0x44 && data[2] == 0x33 {
        let size = (data[6] % 128) as usize * 0x20_0000 + (data[7] % 128) as usize * 0x4000
            + (data[8] % 128) as usize * 0x80 + (data[9] % 128) as usize;
        return 10 + size;
    }
    0
}

/// The bitrates of ISO/IEC 11172-3 and 13818-3 in kbit/s, by bitrate
/// index (0 is free format): for MPEG-1 Layer I, II and III, and for
/// MPEG-2 and 2.5 Layer I and Layers II and III. The frame length of an
/// MPEG-1 Layer III frame with a bitrate is `144000 * kbps / Hz` bytes.
pub proof fn lemma_bitrate_tables(h: Seq<u8>)
    requires
        sizable(h),
    ensures
        ({
            let i = bitrate_index(h) as int;
            &&& mpeg1_bit(h) && layer_bits(h) == 1 ==> spec_bitrate_kbps(h) == seq![0int, 32, 40, 48, 56, 64, 80, 96,
                112, 128, 160, 192, 224, 256, 320][i]
            &&& mpeg1_bit(h) && layer_bits(h) == 2 ==> spec_bitrate_kbps(h) == seq![0int, 32, 48, 56, 64, 80, 96, 112,
                128, 160, 192, 224, 256, 320, 384][i]
            &&& mpeg1_bit(h) && layer_bits(h) == 3 ==> spec_bitrate_kbps(h) == seq![0int, 32, 64, 96, 128, 160, 192,
                224, 256, 288, 320, 352, 384, 416, 448][i]
            &&& !mpeg1_bit(h) && layer_bits(h) == 3 ==> spec_bitrate_kbps(h) == seq![0int, 32, 48, 56, 64, 80, 96,
                112, 128, 144, 160, 176, 192, 224, 256][i]
            &&& !mpeg1_bit(h) && layer_bits(h) != 3 ==> spec_bitrate_kbps(h) == seq![0int, 8, 16, 24, 32, 40, 48, 56,
                64, 80, 96, 112, 128, 144, 160][i]
        }),
        mpeg1_bit(h) && layer_bits(h) == 1 && bitrate_index(h) != 0 ==> spec_frame_bytes(h, 0) == 144000
            * spec_bitrate_kbps(h) / spec_sample_rate_hz(h),
{
    let i = bitrate_index(h) as int;
    vstd::arithmetic::power2::lemma2_to64();
    vstd::arithmetic::div_mod::lemma_mod_bound((h[2] as nat / pow2(4)) as int, pow2(4) as int);
    assert(0 <= i < 15);
    assert(layer_bits(h) <= 3) by {
        vstd::arithmetic::div_mod::lemma_mod_bound((h[1] as nat / pow2(1)) as int, pow2(2) as int);
    }
    assert(i == 0 || i == 1 || i == 2 || i == 3 || i == 4 || i == 5 || i == 6 || i == 7 || i == 8 || i == 9 || i
        == 10 || i == 11 || i == 12 || i == 13 || i == 14);
    if mpeg1_bit(h) && layer_bits(h) == 1 && i != 0 {
        assert(spec_frame_samples(h) == 1152) by {
            assert(!spec_layer1(h));
            assert(!spec_frame_576(h)) by {
                let b = h[1] as nat;
                assert(field(h, 1, 1, 3) == (b / 2) % 8);
                assert(field(h, 1, 1, 2) == (b / 2) % 4);
                assert(field(h, 1, 3, 1) == (b / 8) % 2);
                vstd::arithmetic::div_mod::lemma_div_denominator(b as int, 2, 4);
                vstd::arithmetic::div_mod::lemma_mod_breakdown((b / 2) as int, 4, 2);
            }
        }
        assert(1152 * spec_bitrate_kbps(h) * 125 == 144000 * spec_bitrate_kbps(h));
    }
}

/// The sampling rates by rate index: 44100, 48000 and 32000 Hz for MPEG-1,
/// half of them for MPEG-2 and a quarter for MPEG-2.5; and the samples
/// per frame: 384 for Layer I, 1152 for Layer II and for MPEG-1 Layer III,
/// 576 for Layer III of MPEG-2 and 2.5.
pub proof fn lemma_rate_and_frame_tables(h: Seq<u8>)
    requires
        sizable(h),
    ensures
        ({
            let r = rate_index(h) as int;
            &&& mpeg1_bit(h) && not_mpeg25_bit(h) ==> spec_sample_rate_hz(h) == seq![44100int, 48000, 32000][r]
            &&& !mpeg1_bit(h) && not_mpeg25_bit(h) ==> spec_sample_rate_hz(h) == seq![22050int, 24000, 16000][r]
            &&& !mpeg1_bit(h) && !not_mpeg25_bit(h) ==> spec_sample_rate_hz(h) == seq![11025int, 12000, 8000][r]
        }),
        layer_bits(h) == 3 ==> spec_frame_samples(h) == 384,
        layer_bits(h) == 2 ==> spec_frame_samples(h) == 1152,
        layer_bits(h) == 1 && mpeg1_bit(h) ==> spec_frame_samples(h) == 1152,
        layer_bits(h) == 1 && !mpeg1_bit(h) ==> spec_frame_samples(h) == 576,
{
    vstd::arithmetic::power2::lemma2_to64();
    let r = rate_index(h) as int;
    vstd::arithmetic::div_mod::lemma_mod_bound((h[2] as nat / pow2(2)) as int, pow2(2) as int);
    assert(r == 0 || r == 1 || r == 2);
    let b = h[1] as nat;
    assert(field(h, 1, 1, 3) == (b / 2) % 8);
    assert(field(h, 1, 1, 2) == (b / 2) % 4);
    assert(field(h, 1, 3, 1) == (b / 8) % 2);
    vstd::arithmetic::div_mod::lemma_div_denominator(b as int, 2, 4);
    vstd::arithmetic::div_mod::lemma_mod_breakdown((b / 2) as int, 4, 2);
}

} // verus!
