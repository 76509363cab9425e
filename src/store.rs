//! Content-addressed persistence: an object's id is the SHA-1 digest of its
//! encoding, which is stored zlib-compressed under a path made of the id's
//! hex digits. The file system itself is left to the caller: this module
//! computes what to store, where, and what a stored file holds.

use vstd::prelude::*;
use vstd::string::StringSliceAdditionalSpecFns;

use crate::codec::{
    bytes_equal, copy_bytes, decode_header, decode_header_spec, encode_header, extend_bytes,
    header, first_index, find_byte, lemma_find_from_at, lemma_find_from_bounds,
    lemma_header_round_trip, ObjectKind, ID_LEN, NUL,
};
use crate::error::ObjectError;
use crate::trusted::{deflate, deflated, hex_encode, hex_of, inflate_prefix, inflated, sha1, sha1_digest};

verus! {

/// How many decompressed bytes are first searched for the end of a header;
/// the search doubles from there. The longest header without leading zeros,
/// `"commit 18446744073709551615\0"`, takes 28.
pub const HEADER_CHUNK: u64 = 64;

/// An object: its kind, the size it declares, and its payload.
#[derive(Clone, Debug)]
pub struct Object {
    pub kind: ObjectKind,
    pub expected_size: u64,
    pub payload: Vec<u8>,
}

/// An object as the contracts see it.
pub struct ObjectView {
    pub kind: ObjectKind,
    pub expected_size: u64,
    pub payload: Seq<u8>,
}

impl View for Object {
    type V = ObjectView;

    open spec fn view(&self) -> ObjectView {
        ObjectView { kind: self.kind, expected_size: self.expected_size, payload: self.payload@ }
    }
}

/// The view of a read's result.
pub open spec fn result_view(r: Result<Object, ObjectError>) -> Result<ObjectView, ObjectError> {
    match r {
        Ok(o) => Ok(o@),
        Err(e) => Err(e),
    }
}

/// An object's id and the compressed bytes stored under it.
#[derive(Clone, Debug)]
pub struct StoredObject {
    pub id: [u8; 20],
    pub compressed: Vec<u8>,
}

/// The canonical uncompressed encoding of an object.
pub open spec fn encoding(kind: ObjectKind, payload: Seq<u8>) -> Seq<u8> {
    header(kind, payload.len()) + payload
}

/// The id of an object.
pub open spec fn object_id(kind: ObjectKind, payload: Seq<u8>) -> Seq<u8> {
    sha1_digest(encoding(kind, payload))
}

/// The object that decompressed bytes hold: the kind and declared size of
/// the header, and the payload bytes after it, never more than declared.
/// Where fewer are there, the payload holds those: a caller that needs them
/// all compares the payload's length with the declared size.
pub open spec fn decode_object(data: Seq<u8>) -> Result<ObjectView, ObjectError> {
    match decode_header_spec(data) {
        Err(e) => Err(e),
        Ok((k, n, h)) => if h + n > u64::MAX {
            Err(ObjectError::MalformedHeader)
        } else {
            let end = if data.len() < h + n {
                data.len() as int
            } else {
                h + n
            };
            Ok(ObjectView { kind: k, expected_size: n, payload: data.subrange(h as int, end) })
        },
    }
}

/// What a stored file holds: the object that its zlib stream decompresses
/// to, or a corrupt stream.
pub open spec fn read_spec(stored: Seq<u8>) -> Result<ObjectView, ObjectError> {
    match inflated(stored) {
        Some(data) => decode_object(data),
        None => Err(ObjectError::CorruptStream),
    }
}

impl Object {
    /// An object whose declared size is the length of its payload.
    pub fn new(kind: ObjectKind, payload: Vec<u8>) -> (r: Object)
        requires
            payload@.len() <= u64::MAX,
        ensures
            r.kind == kind,
            r.expected_size == payload@.len(),
            r.payload@ == payload@,
    {
        let n = payload.len() as u64;
        Object { kind, expected_size: n, payload }
    }

    /// The id and compressed encoding of the object made of its kind and the
    /// first `expected_size` bytes of its payload; a payload shorter than
    /// that is a size mismatch.
    pub fn write(&self) -> (r: Result<StoredObject, ObjectError>)
        ensures
            self.payload@.len() < self.expected_size ==> r == Err::<StoredObject, _>(
                ObjectError::SizeMismatch {
                    expected: self.expected_size,
                    actual: self.payload@.len() as u64,
                },
            ),
            self.payload@.len() >= self.expected_size ==> (r matches Ok(s) && {
                let e = encoding(self.kind, self.payload@.take(self.expected_size as int));
                &&& s.id@ == sha1_digest(e)
                &&& s.compressed@ == deflated(e)
                &&& inflated(s.compressed@) == Some(e)
            }),
    {
        if (self.payload.len() as u64) < self.expected_size {
            return Err(
                ObjectError::SizeMismatch {
                    expected: self.expected_size,
                    actual: self.payload.len() as u64,
                },
            );
        }
        let n = self.expected_size as usize;
        let body = vstd::slice::slice_subrange(self.payload.as_slice(), 0, n);
        let mut e = encode_header(self.kind, self.expected_size);
        extend_bytes(&mut e, body);
        assert(e@ =~= encoding(self.kind, self.payload@.take(self.expected_size as int)));
        let id = sha1(e.as_slice());
        let compressed = deflate(e.as_slice());
        Ok(StoredObject { id, compressed })
    }

    /// The object that a stored file holds, read through a bounded
    /// decompression: at most the header and the declared number of payload
    /// bytes are inflated, whatever follows them. A stream that is corrupt
    /// only past those bytes may still be read; what is read is never longer
    /// than the declared size.
    pub fn read_git_object(stored: &[u8]) -> (r: Result<Object, ObjectError>)
        ensures
            inflated(stored@) is Some ==> result_view(r) == read_spec(stored@),
            r matches Ok(o) ==> o.payload@.len() <= o.expected_size,
    {
        let ghost data = inflated(stored@)->Some_0;
        let mut limit: u64 = HEADER_CHUNK;
        let mut head = match inflate_prefix(stored, limit) {
            Some(h) => h,
            None => return Err(ObjectError::CorruptStream),
        };
        while find_byte(head.as_slice(), NUL, 0).is_none() && head.len() as u64 == limit && limit
            < u64::MAX
            invariant
                data == inflated(stored@)->Some_0,
                1 <= limit,
                head@.len() <= limit,
                inflated(stored@) is Some ==> head@ == data.take(
                    if data.len() < limit {
                        data.len() as int
                    } else {
                        limit as int
                    },
                ),
            decreases u64::MAX - limit,
        {
            limit = if limit > u64::MAX / 2 {
                u64::MAX
            } else {
                limit * 2
            };
            head = match inflate_prefix(stored, limit) {
                Some(h) => h,
                None => return Err(ObjectError::CorruptStream),
            };
        }
        proof {
            if inflated(stored@) is Some {
                lemma_header_in_prefix(data, head@, limit);
            }
        }
        let (kind, size, hlen) = match decode_header(head.as_slice()) {
            Ok(x) => x,
            Err(e) => return Err(e),
        };
        proof {
            lemma_find_from_bounds(head@, NUL, 0);
        }
        assert(hlen <= head@.len());
        let h = hlen as u64;
        if size > u64::MAX - h {
            return Err(ObjectError::MalformedHeader);
        }
        let all = match inflate_prefix(stored, h + size) {
            Some(a) => a,
            None => return Err(ObjectError::CorruptStream),
        };
        if (all.len() as u64) < h {
            // The longer read decoded less than the shorter one: the stream is
            // not well formed.
            return Err(ObjectError::CorruptStream);
        }
        let end = all.len();
        let mut payload = Vec::new();
        extend_bytes(&mut payload, vstd::slice::slice_subrange(all.as_slice(), hlen, end));
        assert(payload@ =~= all@.subrange(hlen as int, end as int));
        assert(inflated(stored@) is Some ==> payload@ =~= data.subrange(
            hlen as int,
            if data.len() < hlen + size {
                data.len() as int
            } else {
                hlen + size
            },
        ));
        Ok(Object { kind, expected_size: size, payload })
    }
}

/// Where the header decoded from a prefix of the data is found, or the
/// prefix holds all of the data, the prefix decodes as the data does; and a
/// prefix as long as a `u64` allows without a NUL leaves no room for a size.
proof fn lemma_header_in_prefix(data: Seq<u8>, head: Seq<u8>, limit: u64)
    requires
        head.len() <= limit,
        head == data.take(
            if data.len() < limit {
                data.len() as int
            } else {
                limit as int
            },
        ),
        first_index(head, NUL) >= 0 || head.len() < limit || limit == u64::MAX,
    ensures
        match decode_header_spec(head) {
            Ok((k, n, h)) => decode_header_spec(data) == Ok::<_, ObjectError>((k, n, h)),
            Err(e) => e == ObjectError::MalformedHeader && (decode_header_spec(data) is Err || (
            decode_header_spec(data) matches Ok((k, n, h)) && h > u64::MAX)),
        },
{
    lemma_find_from_bounds(head, NUL, 0);
    lemma_find_from_bounds(data, NUL, 0);
    let p = first_index(head, NUL);
    if p >= 0 {
        assert forall|j: int| 0 <= j < p implies data[j] != NUL by {
            assert(head[j] == data[j]);
        }
        lemma_find_from_at(data, NUL, 0, p);
        assert(head.take(p) =~= data.take(p));
    } else if head.len() < limit {
        assert(head =~= data);
    } else {
        let q = first_index(data, NUL);
        if q >= 0 && q < head.len() {
            assert(head[q] == data[q]);
        }
    }
}

/// A read never hands out more than the declared size: where the stored
/// stream inflates to an encoded object followed by any further bytes, what
/// it decodes to is that object's kind, its size, and exactly its payload.
pub proof fn lemma_read_stops_at_declared_size(
    kind: ObjectKind,
    payload: Seq<u8>,
    extra: Seq<u8>,
)
    requires
        encoding(kind, payload).len() <= u64::MAX,
    ensures
        decode_object(encoding(kind, payload) + extra) == Ok::<_, ObjectError>(
            ObjectView { kind, expected_size: payload.len() as u64, payload },
        ),
{
    let n = payload.len() as u64;
    let h = header(kind, n as nat);
    let data = encoding(kind, payload) + extra;
    let rest = data.skip(h.len() as int);
    assert(data =~= h + rest);
    lemma_header_round_trip(kind, n, rest);
    assert(decode_header_spec(data) == Ok::<_, ObjectError>((kind, n, h.len())));
    assert(h.len() + n <= u64::MAX);
    assert(data.len() >= h.len() + n);
    assert(data.subrange(h.len() as int, h.len() + n) =~= payload);
}

/// Reading back what `Object::write` stored gives the object that was
/// written: its kind, its size, and its payload.
pub proof fn lemma_write_read_round_trip(kind: ObjectKind, payload: Seq<u8>, stored: Seq<u8>)
    requires
        encoding(kind, payload).len() <= u64::MAX,
        inflated(stored) == Some(encoding(kind, payload)),
    ensures
        read_spec(stored) == Ok::<_, ObjectError>(
            ObjectView { kind, expected_size: payload.len() as u64, payload },
        ),
{
    assert(encoding(kind, payload) + Seq::empty() =~= encoding(kind, payload));
    lemma_read_stops_at_declared_size(kind, payload, Seq::empty());
}

/// Whether `p` is a prefix of `s`.
pub open spec fn is_prefix(p: Seq<u8>, s: Seq<u8>) -> bool {
    p.len() <= s.len() && s.take(p.len() as int) == p
}

/// The byte strings that a vector of byte vectors holds.
pub open spec fn byte_strings(v: Seq<Vec<u8>>) -> Seq<Seq<u8>> {
    v.map_values(|n: Vec<u8>| n@)
}

/// How many of `names` start with `p`.
pub open spec fn count_matches(names: Seq<Seq<u8>>, p: Seq<u8>) -> nat
    decreases names.len(),
{
    if names.len() == 0 {
        0
    } else {
        count_matches(names.drop_last(), p) + if is_prefix(p, names.last()) {
            1nat
        } else {
            0nat
        }
    }
}

/// The shortest id prefix that a lookup accepts.
pub const MIN_REFERENCE_LEN: usize = 3;

/// The fan-out directory that the objects matching `reference` lie in: its
/// first two characters.
pub fn fanout_dir(reference: &str) -> (r: Result<Vec<u8>, ObjectError>)
    ensures
        reference.spec_bytes().len() < MIN_REFERENCE_LEN ==> r == Err::<Vec<u8>, _>(
            ObjectError::InvalidReference,
        ),
        reference.spec_bytes().len() >= MIN_REFERENCE_LEN ==> (r matches Ok(d) && d@
            == reference.spec_bytes().take(2)),
{
    let b = reference.as_bytes();
    if b.len() < MIN_REFERENCE_LEN {
        return Err(ObjectError::InvalidReference);
    }
    let d = copy_bytes(vstd::slice::slice_subrange(b, 0, 2));
    assert(d@ =~= b@.take(2));
    Ok(d)
}

/// Whether `s` starts with `p`.
fn starts_with(s: &[u8], p: &[u8]) -> (r: bool)
    ensures
        r == is_prefix(p@, s@),
{
    if s.len() < p.len() {
        return false;
    }
    let head = vstd::slice::slice_subrange(s, 0, p.len());
    assert(head@ =~= s@.take(p@.len() as int));
    bytes_equal(head, p)
}

/// Which of the file names of the fan-out directory `reference` resolves
/// to: the one that starts with the rest of `reference`. None of them is a
/// missing object, more than one an ambiguous reference, never a guess.
pub fn resolve_reference(reference: &str, names: &Vec<Vec<u8>>) -> (r: Result<usize, ObjectError>)
    ensures
        reference.spec_bytes().len() < MIN_REFERENCE_LEN ==> r == Err::<usize, _>(
            ObjectError::InvalidReference,
        ),
        reference.spec_bytes().len() >= MIN_REFERENCE_LEN ==> {
            let rest = reference.spec_bytes().skip(2);
            let c = count_matches(byte_strings(names@), rest);
            &&& c == 0 ==> r == Err::<usize, _>(ObjectError::ObjectNotFound)
            &&& c == 1 ==> (r matches Ok(i) && i < names@.len() && is_prefix(rest, names@[i as int]@))
            &&& c > 1 ==> r == Err::<usize, _>(ObjectError::AmbiguousReference(c as usize))
        },
{
    let b = reference.as_bytes();
    if b.len() < MIN_REFERENCE_LEN {
        return Err(ObjectError::InvalidReference);
    }
    let rest = vstd::slice::slice_subrange(b, 2, b.len());
    assert(rest@ =~= b@.skip(2));
    let ghost views = byte_strings(names@);
    let mut count: usize = 0;
    let mut found: usize = 0;
    let mut i: usize = 0;
    while i < names.len()
        invariant
            i <= names@.len(),
            views == byte_strings(names@),
            count <= i,
            count == count_matches(views.take(i as int), rest@),
            count >= 1 ==> found < i && is_prefix(rest@, names@[found as int]@),
        decreases names@.len() - i,
    {
        assert(views.take(i + 1).drop_last() =~= views.take(i as int));
        if starts_with(names[i].as_slice(), rest) {
            found = i;
            count = count + 1;
        }
        i = i + 1;
    }
    assert(views.take(names@.len() as int) =~= views);
    if count == 0 {
        Err(ObjectError::ObjectNotFound)
    } else if count > 1 {
        Err(ObjectError::AmbiguousReference(count))
    } else {
        Ok(found)
    }
}

proof fn lemma_hex_len(b: Seq<u8>)
    ensures
        hex_of(b).len() == 2 * b.len(),
    decreases b.len(),
{
    if b.len() > 0 {
        lemma_hex_len(b.drop_last());
    }
}

/// Where an object lies in the store: the fan-out directory named by the
/// first two hex digits of its id, and the file named by the others.
pub fn object_location(id: &[u8]) -> (r: (Vec<u8>, Vec<u8>))
    requires
        id@.len() == ID_LEN,
    ensures
        r.0@ == hex_of(id@).take(2),
        r.1@ == hex_of(id@).skip(2),
{
    let h = hex_encode(id);
    proof {
        lemma_hex_len(id@);
    }
    let dir = copy_bytes(vstd::slice::slice_subrange(h.as_slice(), 0, 2));
    let file = copy_bytes(vstd::slice::slice_subrange(h.as_slice(), 2, h.len()));
    assert(dir@ =~= hex_of(id@).take(2));
    assert(file@ =~= hex_of(id@).skip(2));
    (dir, file)
}

/// The blob object of a file's content: its id, and what to store under it.
pub fn git_hash_object(content: Vec<u8>) -> (r: StoredObject)
    ensures
        r.id@ == object_id(ObjectKind::Blob, content@),
        r.compressed@ == deflated(encoding(ObjectKind::Blob, content@)),
        inflated(r.compressed@) == Some(encoding(ObjectKind::Blob, content@)),
{
    assert(content.len() <= u64::MAX);
    let object = Object::new(ObjectKind::Blob, content);
    assert(object.payload@.take(object.expected_size as int) =~= object.payload@);
    match object.write() {
        Ok(stored) => stored,
        Err(_) => {
            assert(false);
            StoredObject { id: [0u8; 20], compressed: Vec::new() }
        },
    }
}

} // verus!
