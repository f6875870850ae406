use vstd::prelude::*;

verus! {

/// Byte `c` (0 = lowest) of a packed pixel.
pub open spec fn channel(px: u32, c: int) -> u8 {
    if c == 0 {
        (px & 0xff) as u8
    } else if c == 1 {
        ((px >> 8) & 0xff) as u8
    } else {
        ((px >> 16) & 0xff) as u8
    }
}

/// The RGB bytes of pixels packed as `0x00BBGGRR` words, in order.
pub open spec fn unpacked(packed: Seq<u32>) -> Seq<u8>
    decreases packed.len(),
{
    if packed.len() == 0 {
        Seq::empty()
    } else {
        let px = packed.last();
        unpacked(packed.drop_last()) + seq![channel(px, 0), channel(px, 1), channel(px, 2)]
    }
}

proof fn lemma_channel_values(px: u32)
    ensures
        channel(px, 0) == px % 256,
        channel(px, 1) == (px / 256) % 256,
        channel(px, 2) == (px / 65536) % 256,
{
    assert((px & 0xff) as u8 == px % 256) by (bit_vector);
    assert(((px >> 8) & 0xff) as u8 == (px / 256) % 256) by (bit_vector);
    assert(((px >> 16) & 0xff) as u8 == (px / 65536) % 256) by (bit_vector);
}

/// Three bytes per pixel, in pixel order: red is the lowest byte of the
/// word, green the next and blue the one above; the top byte is dropped.
pub proof fn lemma_unpacked_bytes(packed: Seq<u32>)
    ensures
        unpacked(packed).len() == 3 * packed.len(),
        forall|k: int| 0 <= k < packed.len() ==> {
            &&& #[trigger] unpacked(packed)[3 * k] == packed[k] % 256
            &&& unpacked(packed)[3 * k + 1] == (packed[k] / 256) % 256
            &&& unpacked(packed)[3 * k + 2] == (packed[k] / 65536) % 256
        },
    decreases packed.len(),
{
    if packed.len() > 0 {
        let init = packed.drop_last();
        lemma_unpacked_bytes(init);
        let px = packed.last();
        lemma_channel_values(px);
        let tail = seq![channel(px, 0), channel(px, 1), channel(px, 2)];
        assert(unpacked(packed) == unpacked(init) + tail);
        assert forall|k: int| 0 <= k < packed.len() implies {
            &&& #[trigger] unpacked(packed)[3 * k] == packed[k] % 256
            &&& unpacked(packed)[3 * k + 1] == (packed[k] / 256) % 256
            &&& unpacked(packed)[3 * k + 2] == (packed[k] / 65536) % 256
        } by {
            if k < init.len() {
                assert(init[k] == packed[k]);
                assert(unpacked(init)[3 * k] == init[k] % 256);
            }
        }
    }
}

/// Unpacks the compute shader's output words into RGB bytes.
pub fn unpack_rgb(packed: &Vec<u32>) -> (rgb: Vec<u8>)
    ensures
        rgb@ == unpacked(packed@),
{
    let mut rgb: Vec<u8> = Vec::new();
    let mut k: usize = 0;
    while k < packed.len()
        invariant
            k <= packed@.len(),
            rgb@ == unpacked(packed@.take(k as int)),
        decreases packed@.len() - k,
    {
        let px = packed[k];
        assert(packed@.take(k + 1).drop_last() =~= packed@.take(k as int));
        rgb.push((px & 0xff) as u8);
        rgb.push(((px >> 8) & 0xff) as u8);
        rgb.push(((px >> 16) & 0xff) as u8);
        assert(rgb@ =~= unpacked(packed@.take(k + 1)));
        k = k + 1;
    }
    assert(packed@.take(packed@.len() as int) =~= packed@);
    rgb
}

} // verus!
