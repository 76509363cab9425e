//! What printing an object shows: a blob's or commit's payload as it is, and
//! a tree as one line per entry.

use vstd::prelude::*;

use crate::codec::{
    copy_bytes, decode_tree_entries, entry_views, extend_bytes, kind_from_mode_bytes, kind_token, mode_kind,
    parse_tree, EntryView, ObjectKind, DIGIT_ZERO, SPACE,
};
use crate::error::ObjectError;
use crate::store::{Object, ObjectView};
use crate::trusted::{hex_encode, hex_of};

verus! {

/// The byte `'\n'`.
pub const NEWLINE: u8 = 10;

/// The width that a mode is padded to with leading zeros.
pub const MODE_WIDTH: usize = 6;

/// A mode padded with leading zeros to six digits.
pub open spec fn padded_mode(m: Seq<u8>) -> Seq<u8> {
    if m.len() < MODE_WIDTH {
        Seq::new((MODE_WIDTH - m.len()) as nat, |i: int| DIGIT_ZERO) + m
    } else {
        m
    }
}

/// The line that lists one entry: its name alone, or its padded mode, the
/// kind it refers to, its id in hex and its name.
pub open spec fn listing_line(e: EntryView, kind: ObjectKind, name_only: bool) -> Seq<u8> {
    if name_only {
        e.name.push(NEWLINE)
    } else {
        padded_mode(e.mode) + seq![SPACE] + kind_token(kind) + seq![SPACE] + hex_of(e.id) + seq![
            SPACE,
            SPACE,
            SPACE,
            SPACE,
        ] + e.name.push(NEWLINE)
    }
}

/// The lines that list `es`, or the error of the first entry whose mode is
/// not an octal number.
pub open spec fn listing(es: Seq<EntryView>, name_only: bool) -> Result<Seq<u8>, ObjectError>
    decreases es.len(),
{
    if es.len() == 0 {
        Ok(Seq::empty())
    } else {
        match listing(es.drop_last(), name_only) {
            Err(e) => Err(e),
            Ok(prev) => match mode_kind(es.last().mode) {
                Err(e) => Err(e),
                Ok(k) => Ok(prev + listing_line(es.last(), k, name_only)),
            },
        }
    }
}

/// The listing of a tree payload.
pub open spec fn tree_listing(payload: Seq<u8>, name_only: bool) -> Result<Seq<u8>, ObjectError> {
    match parse_tree(payload) {
        None => Err(ObjectError::MalformedTreeEntry),
        Some(es) => listing(es, name_only),
    }
}

/// The payload bytes that an object declares: the first `expected_size`
/// of them, never more; a payload holding fewer is a size mismatch.
pub open spec fn declared_payload(o: ObjectView) -> Result<Seq<u8>, ObjectError> {
    if o.payload.len() < o.expected_size {
        Err(ObjectError::SizeMismatch { expected: o.expected_size, actual: o.payload.len() as u64 })
    } else {
        Ok(o.payload.take(o.expected_size as int))
    }
}

/// The listing of the declared payload of a tree object.
pub open spec fn object_listing(o: ObjectView, name_only: bool) -> Result<Seq<u8>, ObjectError> {
    match declared_payload(o) {
        Err(e) => Err(e),
        Ok(p) => tree_listing(p, name_only),
    }
}

/// What printing an object shows.
pub open spec fn cat_spec(pretty_print: bool, o: ObjectView) -> Result<Seq<u8>, ObjectError> {
    if !pretty_print {
        Err(ObjectError::Unsupported)
    } else {
        match o.kind {
            ObjectKind::Tree => object_listing(o, false),
            _ => declared_payload(o),
        }
    }
}

/// The declared payload bytes of `object`.
fn declared_bytes(object: &Object) -> (r: Result<&[u8], ObjectError>)
    ensures
        match declared_payload(object@) {
            Ok(p) => r matches Ok(b) && b@ == p,
            Err(e) => r == Err::<&[u8], _>(e),
        },
{
    if (object.payload.len() as u64) < object.expected_size {
        return Err(
            ObjectError::SizeMismatch {
                expected: object.expected_size,
                actual: object.payload.len() as u64,
            },
        );
    }
    let b = vstd::slice::slice_subrange(object.payload.as_slice(), 0, object.expected_size as usize);
    assert(b@ =~= object.payload@.take(object.expected_size as int));
    Ok(b)
}

/// A mode padded with leading zeros to six digits.
fn pad_mode(m: &[u8]) -> (r: Vec<u8>)
    ensures
        r@ == padded_mode(m@),
{
    let mut r = Vec::new();
    let mut n = m.len();
    while n < MODE_WIDTH
        invariant
            m@.len() <= n <= MODE_WIDTH || (n == m@.len() && n >= MODE_WIDTH),
            r@ == Seq::new((n - m@.len()) as nat, |i: int| DIGIT_ZERO),
        decreases MODE_WIDTH - n,
    {
        r.push(DIGIT_ZERO);
        n = n + 1;
        assert(r@ =~= Seq::new((n - m@.len()) as nat, |i: int| DIGIT_ZERO));
    }
    extend_bytes(&mut r, m);
    assert(r@ =~= padded_mode(m@));
    r
}

/// The listing of the entries of the tree `object`, one line each. Only the
/// declared size of its payload is read, whatever follows.
pub fn git_read_tree_content(object: &Object, name_only: bool) -> (r: Result<Vec<u8>, ObjectError>)
    ensures
        match object_listing(object@, name_only) {
            Ok(l) => r matches Ok(v) && v@ == l,
            Err(e) => r == Err::<Vec<u8>, _>(e),
        },
{
    let payload = match declared_bytes(object) {
        Ok(b) => b,
        Err(e) => return Err(e),
    };
    let entries = match decode_tree_entries(payload) {
        Ok(es) => es,
        Err(e) => return Err(e),
    };
    let ghost es = entry_views(entries@);
    let mut out: Vec<u8> = Vec::new();
    let mut i: usize = 0;
    assert(es.take(0) =~= Seq::<EntryView>::empty());
    while i < entries.len()
        invariant
            es == entry_views(entries@),
            parse_tree(payload@) == Some(es),
            declared_payload(object@) == Ok::<_, ObjectError>(payload@),
            i <= entries@.len(),
            listing(es.take(i as int), name_only) == Ok::<_, ObjectError>(out@),
        decreases entries@.len() - i,
    {
        let e = &entries[i];
        assert(es.take(i + 1).drop_last() =~= es.take(i as int));
        assert(es.take(i + 1).last() == e@);
        let kind = match kind_from_mode_bytes(e.mode.as_slice()) {
            Ok(k) => k,
            Err(err) => {
                proof {
                    assert(listing(es.take(i as int + 1), name_only) == Err::<Seq<u8>, ObjectError>(
                        err,
                    ));
                    lemma_listing_error_stays(es, name_only, i as int + 1);
                }
                return Err(err);
            },
        };
        if !name_only {
            let mut mode = pad_mode(e.mode.as_slice());
            out.append(&mut mode);
            out.push(SPACE);
            let mut token = kind.token();
            out.append(&mut token);
            out.push(SPACE);
            let mut hex = hex_encode(e.id.as_slice());
            out.append(&mut hex);
            out.push(SPACE);
            out.push(SPACE);
            out.push(SPACE);
            out.push(SPACE);
        }
        extend_bytes(&mut out, e.name.as_slice());
        out.push(NEWLINE);
        assert(out@ =~= listing(es.take(i as int), name_only)->Ok_0 + listing_line(e@, kind, name_only));
        i = i + 1;
    }
    assert(es.take(entries@.len() as int) =~= es);
    Ok(out)
}

/// An error in the listing of a prefix is the error of the whole listing.
proof fn lemma_listing_error_stays(es: Seq<EntryView>, name_only: bool, n: int)
    requires
        0 <= n <= es.len(),
        listing(es.take(n), name_only) is Err,
    ensures
        listing(es, name_only) == listing(es.take(n), name_only),
    decreases es.len() - n,
{
    if n < es.len() {
        assert(es.take(n + 1).drop_last() =~= es.take(n));
        lemma_listing_error_stays(es, name_only, n + 1);
    } else {
        assert(es.take(n) =~= es);
    }
}

/// The listing of the tree `object`; an object of another kind is no tree.
pub fn git_ls_tree(name_only: bool, object: &Object) -> (r: Result<Vec<u8>, ObjectError>)
    ensures
        object.kind != ObjectKind::Tree ==> r == Err::<Vec<u8>, _>(ObjectError::NotATree),
        object.kind == ObjectKind::Tree ==> match object_listing(object@, name_only) {
            Ok(l) => r matches Ok(v) && v@ == l,
            Err(e) => r == Err::<Vec<u8>, _>(e),
        },
{
    match object.kind {
        ObjectKind::Tree => git_read_tree_content(object, name_only),
        _ => Err(ObjectError::NotATree),
    }
}

/// What printing `object` shows: a blob's or a commit's payload, or a
/// tree's listing, of at most the declared size. Only pretty-printing is
/// supported.
pub fn git_cat_file(pretty_print: bool, object: &Object) -> (r: Result<Vec<u8>, ObjectError>)
    ensures
        match cat_spec(pretty_print, object@) {
            Ok(l) => r matches Ok(v) && v@ == l,
            Err(e) => r == Err::<Vec<u8>, _>(e),
        },
{
    if !pretty_print {
        return Err(ObjectError::Unsupported);
    }
    match object.kind {
        ObjectKind::Tree => git_read_tree_content(object, false),
        _ => match declared_bytes(object) {
            Ok(b) => Ok(copy_bytes(b)),
            Err(e) => Err(e),
        },
    }
}

} // verus!
