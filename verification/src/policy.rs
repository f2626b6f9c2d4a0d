//! The part of the compression policy that does not depend on measured
//! entropy: formats that are already compressed are never compressed again.

use vstd::prelude::*;
use crate::text::{chars_eq, chars_of};

verus! {

/// Extensions of formats that are already compressed (compared exactly).
pub open spec fn is_precompressed(ext: Seq<char>) -> bool {
    ||| ext == seq!['j', 'p', 'g']
    ||| ext == seq!['j', 'p', 'e', 'g']
    ||| ext == seq!['p', 'n', 'g']
    ||| ext == seq!['g', 'i', 'f']
    ||| ext == seq!['b', 'm', 'p']
    ||| ext == seq!['w', 'e', 'b', 'p']
    ||| ext == seq!['i', 'c', 'o']
    ||| ext == seq!['m', 'p', '3']
    ||| ext == seq!['o', 'g', 'g']
    ||| ext == seq!['f', 'l', 'a', 'c']
    ||| ext == seq!['m', '4', 'a']
    ||| ext == seq!['a', 'a', 'c']
    ||| ext == seq!['m', 'p', '4']
    ||| ext == seq!['m', 'k', 'v']
    ||| ext == seq!['m', 'o', 'v']
    ||| ext == seq!['a', 'v', 'i']
    ||| ext == seq!['w', 'e', 'b', 'm']
    ||| ext == seq!['z', 'i', 'p']
    ||| ext == seq!['g', 'z']
    ||| ext == seq!['b', 'z', '2']
    ||| ext == seq!['x', 'z']
    ||| ext == seq!['7', 'z']
    ||| ext == seq!['r', 'a', 'r']
    ||| ext == seq!['l', 'z', '4']
    ||| ext == seq!['z', 's', 't']
    ||| ext == seq!['p', 'd', 'f']
    ||| ext == seq!['s', 'w', 'f']
    ||| ext == seq!['p', 's', 'd']
}

/// The formats stored without compressing again: images (jpg, jpeg, png,
/// gif, bmp, webp, ico), audio (mp3, ogg, flac, m4a, aac), video (mp4, mkv,
/// mov, avi, webm), archives (zip, gz, bz2, xz, 7z, rar, lz4, zst) and
/// documents (pdf, swf, psd). Names are compared exactly, so every format
/// named here is never compressed, and every never-compressed name is two to
/// four characters long.
pub proof fn lemma_precompressed_formats(ext: Seq<char>)
    ensures
        (ext == seq!['j', 'p', 'g'] || ext == seq!['j', 'p', 'e', 'g'] || ext == seq!['p', 'n', 'g']
            || ext == seq!['g', 'i', 'f'] || ext == seq!['b', 'm', 'p'] || ext == seq![
            'w',
            'e',
            'b',
            'p',
        ] || ext == seq!['i', 'c', 'o']) ==> is_precompressed(ext),
        (ext == seq!['m', 'p', '3'] || ext == seq!['o', 'g', 'g'] || ext == seq!['f', 'l', 'a', 'c']
            || ext == seq!['m', '4', 'a'] || ext == seq!['a', 'a', 'c']) ==> is_precompressed(ext),
        (ext == seq!['m', 'p', '4'] || ext == seq!['m', 'k', 'v'] || ext == seq!['m', 'o', 'v']
            || ext == seq!['a', 'v', 'i'] || ext == seq!['w', 'e', 'b', 'm']) ==> is_precompressed(
            ext,
        ),
        (ext == seq!['z', 'i', 'p'] || ext == seq!['g', 'z'] || ext == seq!['b', 'z', '2'] || ext
            == seq!['x', 'z'] || ext == seq!['7', 'z'] || ext == seq!['r', 'a', 'r'] || ext == seq![
            'l',
            'z',
            '4',
        ] || ext == seq!['z', 's', 't']) ==> is_precompressed(ext),
        (ext == seq!['p', 'd', 'f'] || ext == seq!['s', 'w', 'f'] || ext == seq!['p', 's', 'd'])
            ==> is_precompressed(ext),
        is_precompressed(ext) ==> 2 <= ext.len() <= 4,
{
}

/// Whether `ext` names a format that is never compressed, whatever its entropy.
pub fn never_compressed(ext: &str) -> (r: bool)
    ensures
        r == is_precompressed(ext@),
{
    let e = chars_of(ext);
    let l = e.as_slice();
    let images = chars_eq(l, &['j', 'p', 'g']) || chars_eq(l, &['j', 'p', 'e', 'g']) || chars_eq(
        l,
        &['p', 'n', 'g'],
    ) || chars_eq(l, &['g', 'i', 'f']) || chars_eq(l, &['b', 'm', 'p']) || chars_eq(
        l,
        &['w', 'e', 'b', 'p'],
    ) || chars_eq(l, &['i', 'c', 'o']);
    let audio = chars_eq(l, &['m', 'p', '3']) || chars_eq(l, &['o', 'g', 'g']) || chars_eq(
        l,
        &['f', 'l', 'a', 'c'],
    ) || chars_eq(l, &['m', '4', 'a']) || chars_eq(l, &['a', 'a', 'c']);
    let video = chars_eq(l, &['m', 'p', '4']) || chars_eq(l, &['m', 'k', 'v']) || chars_eq(
        l,
        &['m', 'o', 'v'],
    ) || chars_eq(l, &['a', 'v', 'i']) || chars_eq(l, &['w', 'e', 'b', 'm']);
    let archives = chars_eq(l, &['z', 'i', 'p']) || chars_eq(l, &['g', 'z']) || chars_eq(
        l,
        &['b', 'z', '2'],
    ) || chars_eq(l, &['x', 'z']) || chars_eq(l, &['7', 'z']) || chars_eq(l, &['r', 'a', 'r'])
        || chars_eq(l, &['l', 'z', '4']) || chars_eq(l, &['z', 's', 't']);
    let documents = chars_eq(l, &['p', 'd', 'f']) || chars_eq(l, &['s', 'w', 'f']) || chars_eq(
        l,
        &['p', 's', 'd'],
    );
    images || audio || video || archives || documents
}

} // verus!
