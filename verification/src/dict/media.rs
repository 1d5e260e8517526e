//! Image assets that a gloss tree names.
use super::gloss::{DocV, GlossDoc, Kind};
use crate::chars::{list_has, strs};
use vstd::prelude::*;

verus! {

#[derive(Clone, Copy, Debug, PartialEq, Eq, Structural)]
pub enum MediaFormat {
    Png,
    Jpeg,
    Gif,
    Webp,
    Avif,
    Svg,
}

/// The recorded size of one asset. Each measure is the bit pattern of a
/// single-precision number.
#[derive(Clone, Copy, Debug, PartialEq, Eq, Structural)]
pub struct Intrinsic {
    pub format: MediaFormat,
    pub width: u32,
    pub height: u32,
    pub aspect: u32,
}

/// What a list of sized assets holds.
pub open spec fn media_v(m: Seq<(String, Intrinsic)>) -> Seq<(Seq<char>, Intrinsic)> {
    m.map_values(|p: (String, Intrinsic)| (p.0@, p.1))
}

pub fn copy_media(m: &Vec<(String, Intrinsic)>) -> (r: Vec<(String, Intrinsic)>)
    ensures
        media_v(r@) == media_v(m@),
{
    let mut r: Vec<(String, Intrinsic)> = Vec::new();
    let mut i: usize = 0;
    while i < m.len()
        invariant
            i <= m@.len(),
            media_v(r@) == media_v(m@).take(i as int),
        decreases m@.len() - i,
    {
        let ghost before = media_v(r@);
        r.push((m[i].0.clone(), m[i].1));
        assert(media_v(r@) =~= before.push(media_v(m@)[i as int]));
        assert(media_v(m@).take(i + 1) =~= media_v(m@).take(i as int).push(media_v(m@)[i as int]));
        i += 1;
    }
    assert(media_v(m@).take(i as int) =~= media_v(m@));
    r
}

/// The distinct asset paths that the first `n` nodes name, in parse order.
pub open spec fn paths_upto(doc: DocV, n: int) -> Seq<Seq<char>>
    decreases n,
{
    if n <= 0 {
        seq![]
    } else {
        let before = paths_upto(doc, n - 1);
        let node = doc.nodes[n - 1];
        if node.kind == Kind::Image && node.path.len() > 0 && !before.contains(node.path) {
            before.push(node.path)
        } else {
            before
        }
    }
}

/// Every image asset that one parsed tree names, once.
///
/// A flat sweep of the arena rather than a tree descent, because an image
/// node's depth is irrelevant here and a sweep cannot recurse.
pub fn image_paths(doc: &GlossDoc) -> (r: Vec<String>)
    ensures
        strs(r@) == paths_upto(doc@, doc@.nodes.len() as int),
{
    let nodes = doc.all_nodes();
    let mut out: Vec<String> = Vec::new();
    assert(strs(out@) =~= seq![]);
    let mut i: usize = 0;
    while i < nodes.len()
        invariant
            i <= nodes@.len(),
            nodes@.len() == doc@.nodes.len(),
            forall|k: int| 0 <= k < nodes@.len() ==> (#[trigger] nodes@[k]).v() == doc@.nodes[k],
            strs(out@) == paths_upto(doc@, i as int),
        decreases nodes@.len() - i,
    {
        let node = &nodes[i];
        assert(node.v() == doc@.nodes[i as int]);
        if node.kind == Kind::Image && !node.path.as_str().is_empty() && !list_has(
            out.as_slice(),
            node.path.as_str(),
        ) {
            let ghost before = strs(out@);
            out.push(node.path.clone());
            assert(strs(out@) =~= before.push(node.path@));
        }
        i += 1;
    }
    out
}

/// Why an asset cannot be painted.
#[derive(Debug, PartialEq, Eq)]
pub enum Missing {
    /// The store has no such asset.
    NotStored,
    /// The store could not be read.
    Unavailable(String),
    /// The bytes are no picture.
    Undecodable(String),
}

/// One asset's pixels, from what the store gave and what decoding made of it.
pub fn surface<T>(stored: Result<Option<Result<T, String>>, String>) -> (r: Result<T, Missing>)
    ensures
        r == (match stored {
            Err(why) => Err(Missing::Unavailable(why)),
            Ok(None) => Err(Missing::NotStored),
            Ok(Some(Err(why))) => Err(Missing::Undecodable(why)),
            Ok(Some(Ok(pixels))) => Ok(pixels),
        }),
{
    match stored {
        Err(why) => Err(Missing::Unavailable(why)),
        Ok(None) => Err(Missing::NotStored),
        Ok(Some(Err(why))) => Err(Missing::Undecodable(why)),
        Ok(Some(Ok(pixels))) => Ok(pixels),
    }
}

/// Every asset that an image names is listed once, and nothing else is.
pub proof fn every_image_is_listed_once(doc: DocV, n: int, p: Seq<char>)
    requires
        0 <= n <= doc.nodes.len(),
    ensures
        paths_upto(doc, n).no_duplicates(),
        paths_upto(doc, n).contains(p) <==> p.len() > 0 && exists|i: int|
            0 <= i < n && (#[trigger] doc.nodes[i]).kind == Kind::Image && doc.nodes[i].path == p,
    decreases n,
{
    if n > 0 {
        every_image_is_listed_once(doc, n - 1, p);
        let before = paths_upto(doc, n - 1);
        let all = paths_upto(doc, n);
        let node = doc.nodes[n - 1];
        if all.contains(p) {
            let j = choose|j: int| 0 <= j < all.len() && all[j] == p;
            if j < before.len() {
                assert(before[j] == p);
            }
        }
        if before.contains(p) {
            let j = choose|j: int| 0 <= j < before.len() && before[j] == p;
            assert(all[j] == p);
        }
        if node.kind == Kind::Image && node.path == p && p.len() > 0 && !before.contains(p) {
            assert(all[before.len() as int] == p);
        }
    }
}

} // verus!
