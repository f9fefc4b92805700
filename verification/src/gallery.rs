//! The registry of images a node offers for preview, and the extent of the
//! strip that shows them side by side.

use vstd::prelude::*;

verus! {

/// What the registry keeps of one image.
#[derive(Debug)]
pub struct ImageData {
    pub id: u32,
    pub owner: String,
    pub path: String,
    /// Width of the preview in pixels.
    pub width: u32,
    /// Height of the preview in pixels.
    pub height: u32,
}

/// The identifiers of `images`, in order.
pub open spec fn image_ids(images: Seq<ImageData>) -> Seq<u32> {
    images.map_values(|image: ImageData| image.id)
}

/// Appends an image to the registry.
pub fn add_image(images: &mut Vec<ImageData>, image: ImageData)
    ensures
        final(images)@ == old(images)@.push(image),
{
    images.push(image);
}

/// Removes every image whose identifier is `image_id`; the others stay, in
/// the order they had.
pub fn delete_image(images: &mut Vec<ImageData>, image_id: u32)
    ensures
        final(images)@ == old(images)@.filter(|image: ImageData| image.id != image_id),
{
    let ghost keep = |image: ImageData| image.id != image_id;
    let ghost before = images@;
    let mut kept: Vec<ImageData> = Vec::new();
    let mut rest: Vec<ImageData> = Vec::new();
    core::mem::swap(images, &mut rest);
    let mut reversed: Vec<ImageData> = Vec::new();
    let ghost n = rest@.len();
    while rest.len() > 0
        invariant
            rest@.len() + reversed@.len() == n,
            n == before.len(),
            rest@ == before.subrange(0, rest@.len() as int),
            forall|k: int|
                0 <= k < reversed@.len() ==> reversed@[k] == before[n - 1 - k],
        decreases rest@.len(),
    {
        let image = rest.pop().unwrap();
        reversed.push(image);
        assert(rest@ =~= before.subrange(0, rest@.len() as int));
    }
    while reversed.len() > 0
        invariant
            reversed@.len() <= n,
            n == before.len(),
            keep == (|image: ImageData| image.id != image_id),
            forall|k: int|
                0 <= k < reversed@.len() ==> reversed@[k] == before[n - 1 - k],
            kept@ == before.subrange(0, n - reversed@.len()).filter(keep),
        decreases reversed@.len(),
    {
        let ghost done = (n - reversed@.len()) as int;
        let image = reversed.pop().unwrap();
        assert(image == before[done]);
        proof {
            let prefix = before.subrange(0, done);
            let next = before.subrange(0, done + 1);
            assert(next =~= prefix.push(before[done]));
            assert(next.drop_last() =~= prefix);
            reveal(Seq::filter);
        }
        if image.id != image_id {
            kept.push(image);
        }
    }
    assert(before.subrange(0, n as int) =~= before);
    *images = kept;
}

/// The widths of the first `n` images, added up.
pub open spec fn total_width(images: Seq<ImageData>, n: nat) -> nat
    decreases n,
{
    if n == 0 || n > images.len() {
        0
    } else {
        total_width(images, (n - 1) as nat) + images[n - 1].width as nat
    }
}

/// The greatest height among the first `n` images; 0 where there is none.
pub open spec fn max_height(images: Seq<ImageData>, n: nat) -> nat
    decreases n,
{
    if n == 0 || n > images.len() {
        0
    } else {
        let rest = max_height(images, (n - 1) as nat);
        if images[n - 1].height > rest {
            images[n - 1].height as nat
        } else {
            rest
        }
    }
}

/// The widths add up without end: more images never make the strip
/// narrower.
pub proof fn lemma_total_width_grows(images: Seq<ImageData>, n: nat, m: nat)
    requires
        n <= m <= images.len(),
    ensures
        total_width(images, n) <= total_width(images, m),
    decreases m,
{
    if n < m {
        lemma_total_width_grows(images, n, (m - 1) as nat);
    }
}

/// The width and height of the strip that shows all images side by side:
/// the widths added up and the greatest height. `None` if the strip would
/// be wider than a width can say.
pub fn strip_extent(images: &Vec<ImageData>) -> (extent: Option<(u32, u32)>)
    ensures
        extent is Some <==> total_width(images@, images@.len()) <= u32::MAX,
        extent matches Some((width, height)) ==> width == total_width(images@, images@.len())
            && height == max_height(images@, images@.len()),
{
    let mut width: u32 = 0;
    let mut height: u32 = 0;
    let mut n: usize = 0;
    while n < images.len()
        invariant
            n <= images@.len(),
            width == total_width(images@, n as nat),
            height == max_height(images@, n as nat),
        decreases images@.len() - n,
    {
        let image = &images[n];
        if image.width > u32::MAX - width {
            proof {
                lemma_total_width_grows(images@, (n + 1) as nat, images@.len());
            }
            return None;
        }
        width = width + image.width;
        if image.height > height {
            height = image.height;
        }
        n = n + 1;
    }
    Some((width, height))
}

/// Where image `index` begins in the strip: the widths of the images
/// before it, added up.
pub fn strip_offset(images: &Vec<ImageData>, index: usize) -> (offset: Option<u32>)
    requires
        index <= images@.len(),
    ensures
        offset is Some <==> total_width(images@, index as nat) <= u32::MAX,
        offset matches Some(x) ==> x == total_width(images@, index as nat),
{
    let mut width: u32 = 0;
    let mut n: usize = 0;
    while n < index
        invariant
            n <= index <= images@.len(),
            width == total_width(images@, n as nat),
        decreases index - n,
    {
        let image = &images[n];
        if image.width > u32::MAX - width {
            proof {
                lemma_total_width_grows(images@, (n + 1) as nat, index as nat);
            }
            return None;
        }
        width = width + image.width;
        n = n + 1;
    }
    Some(width)
}

} // verus!
