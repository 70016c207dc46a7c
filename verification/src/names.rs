//! Canonical output filenames.
//!
//! Resumability rests on names alone: a unit of work is skipped exactly when
//! its canonical filename is already present in the output directory.  The
//! names are built here as ASCII byte strings, so that the scan-and-skip
//! decision is itself verified; the unverified rim only turns them into
//! platform strings.
//!
//! A sector pyramid level is named `{dataset}_S-{face}-{level:02}x{x:02}x{y:02}.tiff`
//! and a tile `{dataset}_{level}_{face}_{x}x{y}.tiff`.

use vstd::prelude::*;

verus! {

/// ASCII digit of `d`.
pub open spec fn digit(d: int) -> u8
    recommends
        0 <= d < 10,
{
    (48 + d) as u8
}

/// Two-digit zero-padded decimal of `n`.
pub open spec fn two_digits(n: int) -> Seq<u8>
    recommends
        0 <= n < 100,
{
    seq![digit(n / 10), digit(n % 10)]
}

/// Unpadded decimal of `n`.
pub open spec fn decimal(n: nat) -> Seq<u8>
    decreases n,
{
    if n < 10 {
        seq![digit(n as int)]
    } else {
        decimal(n / 10).push(digit(n as int % 10))
    }
}

/// Name of the file holding level `level` of sector `(face, x, y)`:
/// `{dataset}_S-{face}-{level:02}x{x:02}x{y:02}.tiff`.
pub open spec fn sector_filename_spec(
    dataset: Seq<u8>,
    face: int,
    level: int,
    x: int,
    y: int,
) -> Seq<u8> {
    dataset + seq![95u8, 83u8, 45u8] + seq![digit(face)] + seq![45u8] + two_digits(level) + seq![
        120u8,
    ] + two_digits(x) + seq![120u8] + two_digits(y) + seq![46u8, 116u8, 105u8, 102u8, 102u8]
}

/// Name of the file holding the tile of node `(face, level, x, y)`:
/// `{dataset}_{level}_{face}_{x}x{y}.tiff`.
pub open spec fn tile_filename_spec(
    dataset: Seq<u8>,
    level: nat,
    face: nat,
    x: nat,
    y: nat,
) -> Seq<u8> {
    dataset + seq![95u8] + decimal(level) + seq![95u8] + decimal(face) + seq![95u8] + decimal(x)
        + seq![120u8] + decimal(y) + seq![46u8, 116u8, 105u8, 102u8, 102u8]
}

/// Appends the two-digit zero-padded decimal of `n`.
fn push_two_digits(out: &mut Vec<u8>, n: u32)
    requires
        n < 100,
    ensures
        final(out)@ == old(out)@ + two_digits(n as int),
{
    out.push(48 + (n / 10) as u8);
    out.push(48 + (n % 10) as u8);
    assert(out@ =~= old(out)@ + two_digits(n as int));
}

/// Appends the unpadded decimal of `n`.
fn push_decimal(out: &mut Vec<u8>, n: u32)
    ensures
        final(out)@ == old(out)@ + decimal(n as nat),
    decreases n,
{
    if n < 10 {
        out.push(48 + n as u8);
        assert(out@ =~= old(out)@ + decimal(n as nat));
    } else {
        push_decimal(out, n / 10);
        out.push(48 + (n % 10) as u8);
        assert(out@ =~= old(out)@ + decimal(n as nat));
    }
}

/// Builds the canonical sector pyramid filename.
pub fn sector_filename(dataset: &Vec<u8>, face: u8, level: u8, x: u32, y: u32) -> (r: Vec<u8>)
    requires
        face < 10,
        level < 100,
        x < 100,
        y < 100,
    ensures
        r@ == sector_filename_spec(dataset@, face as int, level as int, x as int, y as int),
{
    let mut out: Vec<u8> = Vec::new();
    out.extend_from_slice(dataset.as_slice());
    out.push(95);
    out.push(83);
    out.push(45);
    out.push(48 + face);
    out.push(45);
    push_two_digits(&mut out, level as u32);
    out.push(120);
    push_two_digits(&mut out, x);
    out.push(120);
    push_two_digits(&mut out, y);
    out.push(46);
    out.push(116);
    out.push(105);
    out.push(102);
    out.push(102);
    assert(out@ =~= sector_filename_spec(
        dataset@,
        face as int,
        level as int,
        x as int,
        y as int,
    ));
    out
}

/// Builds the canonical tile filename.
pub fn tile_filename(dataset: &Vec<u8>, level: u8, face: u8, x: u32, y: u32) -> (r: Vec<u8>)
    ensures
        r@ == tile_filename_spec(dataset@, level as nat, face as nat, x as nat, y as nat),
{
    let mut out: Vec<u8> = Vec::new();
    out.extend_from_slice(dataset.as_slice());
    out.push(95);
    push_decimal(&mut out, level as u32);
    out.push(95);
    push_decimal(&mut out, face as u32);
    out.push(95);
    push_decimal(&mut out, x);
    out.push(120);
    push_decimal(&mut out, y);
    out.push(46);
    out.push(116);
    out.push(105);
    out.push(102);
    out.push(102);
    assert(out@ =~= tile_filename_spec(dataset@, level as nat, face as nat, x as nat, y as nat));
    out
}

/// Whether `name` occurs among `names`.
pub open spec fn contains_name_spec(names: Seq<Vec<u8>>, name: Seq<u8>) -> bool {
    exists|i: int| 0 <= i < names.len() && #[trigger] names[i]@ == name
}

/// Byte-for-byte equality of two byte strings.
pub fn bytes_eq(a: &Vec<u8>, b: &Vec<u8>) -> (r: bool)
    ensures
        r <==> a@ == b@,
{
    if a.len() != b.len() {
        return false;
    }
    let n = a.len();
    let mut i: usize = 0;
    while i < n
        invariant
            n == a.len() == b.len(),
            i <= n,
            forall|j: int| 0 <= j < i ==> a@[j] == b@[j],
        decreases n - i,
    {
        if a[i] != b[i] {
            return false;
        }
        i = i + 1;
    }
    assert(a@ =~= b@);
    true
}

/// Whether `name` occurs among `names`: membership in the set of filenames
/// an output directory already holds.
pub fn contains_name(names: &Vec<Vec<u8>>, name: &Vec<u8>) -> (r: bool)
    ensures
        r <==> contains_name_spec(names@, name@),
{
    let n = names.len();
    let mut i: usize = 0;
    while i < n
        invariant
            n == names.len(),
            i <= n,
            forall|j: int| 0 <= j < i ==> #[trigger] names@[j]@ != name@,
        decreases n - i,
    {
        if bytes_eq(&names[i], name) {
            return true;
        }
        i = i + 1;
    }
    false
}

} // verus!
