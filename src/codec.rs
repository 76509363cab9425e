//! The canonical uncompressed encoding of objects: the header
//! `"<kind> <size>\0"`, and the entries `"<octal-mode> <name>\0<raw-id>"` of a
//! tree.

use vstd::prelude::*;

use vstd::string::StringSliceAdditionalSpecFns;

use vstd::utf8::valid_utf8;

use crate::error::ObjectError;
use crate::trusted::is_utf8;

verus! {

/// The three kinds of stored object.
#[derive(Clone, Copy, Debug, PartialEq, Eq, Structural)]
pub enum ObjectKind {
    Blob,
    Tree,
    Commit,
}

/// The lowercase token that names a kind in headers, as bytes.
pub open spec fn kind_token(k: ObjectKind) -> Seq<u8> {
    match k {
        ObjectKind::Blob => seq![98u8, 108, 111, 98],  // "blob"
        ObjectKind::Tree => seq![116u8, 114, 101, 101],  // "tree"
        ObjectKind::Commit => seq![99u8, 111, 109, 109, 105, 116],  // "commit"
    }
}

/// The kind that a token names, if any.
pub open spec fn kind_of_token(t: Seq<u8>) -> Option<ObjectKind> {
    if t == kind_token(ObjectKind::Blob) {
        Some(ObjectKind::Blob)
    } else if t == kind_token(ObjectKind::Tree) {
        Some(ObjectKind::Tree)
    } else if t == kind_token(ObjectKind::Commit) {
        Some(ObjectKind::Commit)
    } else {
        None
    }
}

/// The token of a kind, as text.
pub open spec fn kind_name(k: ObjectKind) -> Seq<char> {
    match k {
        ObjectKind::Blob => "blob"@,
        ObjectKind::Tree => "tree"@,
        ObjectKind::Commit => "commit"@,
    }
}

pub proof fn lemma_kind_token_round_trip(k: ObjectKind)
    ensures
        kind_of_token(kind_token(k)) == Some(k),
{
    assert(kind_token(ObjectKind::Blob) != kind_token(ObjectKind::Tree)) by {
        assert(kind_token(ObjectKind::Blob)[0] != kind_token(ObjectKind::Tree)[0]);
    }
    assert(kind_token(ObjectKind::Commit).len() != kind_token(ObjectKind::Tree).len());
    assert(kind_token(ObjectKind::Commit).len() != kind_token(ObjectKind::Blob).len());
}

/// Whether `b` holds exactly the bytes of `t`.
pub fn bytes_equal(b: &[u8], t: &[u8]) -> (r: bool)
    ensures
        r == (b@ == t@),
{
    if b.len() != t.len() {
        return false;
    }
    let mut i: usize = 0;
    while i < b.len()
        invariant
            b@.len() == t@.len(),
            i <= b@.len(),
            forall|j: int| 0 <= j < i ==> b@[j] == t@[j],
        decreases b@.len() - i,
    {
        if b[i] != t[i] {
            return false;
        }
        i = i + 1;
    }
    assert(b@ =~= t@);
    true
}

/// The kind that a token names, from its bytes.
pub fn kind_from_token(t: &[u8]) -> (r: Result<ObjectKind, ObjectError>)
    ensures
        r == (match kind_of_token(t@) {
            Some(k) => Ok(k),
            None => Err(ObjectError::UnknownObjectKind),
        }),
{
    let blob: [u8; 4] = [98, 108, 111, 98];
    let tree: [u8; 4] = [116, 114, 101, 101];
    let commit: [u8; 6] = [99, 111, 109, 109, 105, 116];
    assert(blob@ =~= kind_token(ObjectKind::Blob));
    assert(tree@ =~= kind_token(ObjectKind::Tree));
    assert(commit@ =~= kind_token(ObjectKind::Commit));
    if bytes_equal(t, blob.as_slice()) {
        Ok(ObjectKind::Blob)
    } else if bytes_equal(t, tree.as_slice()) {
        Ok(ObjectKind::Tree)
    } else if bytes_equal(t, commit.as_slice()) {
        Ok(ObjectKind::Commit)
    } else {
        Err(ObjectError::UnknownObjectKind)
    }
}

impl ObjectKind {
    /// The kind that `kind` names: `"blob"`, `"tree"` or `"commit"`.
    pub fn from_str(kind: &str) -> (r: Result<ObjectKind, ObjectError>)
        ensures
            r == (match kind_of_token(kind.spec_bytes()) {
                Some(k) => Ok(k),
                None => Err(ObjectError::UnknownObjectKind),
            }),
    {
        kind_from_token(kind.as_bytes())
    }

    /// The token that names this kind.
    pub fn to_str(&self) -> (r: &'static str)
        ensures
            r@ == kind_name(*self),
    {
        match self {
            ObjectKind::Blob => "blob",
            ObjectKind::Tree => "tree",
            ObjectKind::Commit => "commit",
        }
    }

    /// The token that names this kind, as bytes.
    pub fn token(&self) -> (r: Vec<u8>)
        ensures
            r@ == kind_token(*self),
    {
        let r = match self {
            ObjectKind::Blob => vec![98, 108, 111, 98],
            ObjectKind::Tree => vec![116, 114, 101, 101],
            ObjectKind::Commit => vec![99, 111, 109, 109, 105, 116],
        };
        assert(r@ =~= kind_token(*self));
        r
    }
}

/// The byte that ends a header and the text of a tree entry.
pub const NUL: u8 = 0;

/// The byte between a header's kind and size, and an entry's mode and name.
pub const SPACE: u8 = 32;

/// The byte `'0'`.
pub const DIGIT_ZERO: u8 = 48;

/// The decimal digits of `n`, most significant first, without leading zeros.
pub open spec fn decimal(n: nat) -> Seq<u8>
    decreases n,
{
    if n < 10 {
        seq![(DIGIT_ZERO + n) as u8]
    } else {
        decimal(n / 10).push((DIGIT_ZERO + n % 10) as u8)
    }
}

/// Whether `b` is a digit of the given base (at most ten).
pub open spec fn is_base_digit(b: u8, base: nat) -> bool {
    DIGIT_ZERO <= b && b - DIGIT_ZERO < base
}

/// The number that a string of digits denotes in the given base.
pub open spec fn number_value(s: Seq<u8>, base: nat) -> nat
    decreases s.len(),
{
    if s.len() == 0 {
        0
    } else {
        number_value(s.drop_last(), base) * base + (s.last() - DIGIT_ZERO) as nat
    }
}

/// A non-empty string of digits of the given base whose value is at most
/// `limit`.
pub open spec fn parse_number(s: Seq<u8>, base: nat, limit: nat) -> Option<nat> {
    if s.len() > 0 && (forall|i: int| 0 <= i < s.len() ==> is_base_digit(#[trigger] s[i], base))
        && number_value(s, base) <= limit {
        Some(number_value(s, base))
    } else {
        None
    }
}

/// A non-empty string of decimal digits whose value fits in a `u64`.
pub open spec fn parse_decimal(s: Seq<u8>) -> Option<u64> {
    match parse_number(s, 10, u64::MAX as nat) {
        Some(n) => Some(n as u64),
        None => None,
    }
}

/// A non-empty string of octal digits whose value fits in a `u32`.
pub open spec fn parse_octal(s: Seq<u8>) -> Option<u32> {
    match parse_number(s, 8, u32::MAX as nat) {
        Some(n) => Some(n as u32),
        None => None,
    }
}

/// The first position at or after `i` that holds `x`, or -1.
pub open spec fn find_from(s: Seq<u8>, x: u8, i: int) -> int
    decreases s.len() - i,
{
    if i < 0 || i >= s.len() {
        -1
    } else if s[i] == x {
        i
    } else {
        find_from(s, x, i + 1)
    }
}

/// The first position that holds `x`, or -1.
pub open spec fn first_index(s: Seq<u8>, x: u8) -> int {
    find_from(s, x, 0)
}

/// The header `"<kind> <size>\0"` that precedes an object's payload.
pub open spec fn header(kind: ObjectKind, size: nat) -> Seq<u8> {
    kind_token(kind) + seq![SPACE] + decimal(size) + seq![NUL]
}

/// What the header at the start of `b` declares: its kind, its size, and the
/// header's own length, NUL included.
pub open spec fn decode_header_spec(b: Seq<u8>) -> Result<(ObjectKind, u64, nat), ObjectError> {
    let nul = first_index(b, NUL);
    if nul < 0 {
        Err(ObjectError::MalformedHeader)
    } else {
        let text = b.take(nul);
        let sp = first_index(text, SPACE);
        if sp < 0 {
            Err(ObjectError::MalformedHeader)
        } else {
            match (kind_of_token(text.take(sp)), parse_decimal(text.skip(sp + 1))) {
                (Some(k), Some(n)) => Ok((k, n, (nul + 1) as nat)),
                _ => Err(ObjectError::MalformedHeader),
            }
        }
    }
}

pub proof fn lemma_find_from_at(s: Seq<u8>, x: u8, i: int, p: int)
    requires
        0 <= i <= p < s.len(),
        s[p] == x,
        forall|j: int| i <= j < p ==> s[j] != x,
    ensures
        find_from(s, x, i) == p,
    decreases p - i,
{
    if i < p {
        lemma_find_from_at(s, x, i + 1, p);
    }
}

pub proof fn lemma_find_from_bounds(s: Seq<u8>, x: u8, i: int)
    requires
        0 <= i,
    ensures
        find_from(s, x, i) == -1 || (i <= find_from(s, x, i) < s.len() && s[find_from(s, x, i)]
            == x && forall|j: int| i <= j < find_from(s, x, i) ==> s[j] != x),
        find_from(s, x, i) == -1 ==> forall|j: int| i <= j < s.len() ==> s[j] != x,
    decreases s.len() - i,
{
    if i < s.len() && s[i] != x {
        lemma_find_from_bounds(s, x, i + 1);
    }
    if i >= s.len() {
        assert(forall|j: int| i <= j < s.len() ==> s[j] != x);
    }
}

pub proof fn lemma_decimal(n: nat)
    ensures
        decimal(n).len() > 0,
        forall|i: int| 0 <= i < decimal(n).len() ==> is_base_digit(#[trigger] decimal(n)[i], 10),
        number_value(decimal(n), 10) == n,
    decreases n,
{
    if n < 10 {
        assert(decimal(n).drop_last() =~= Seq::<u8>::empty());
        assert(decimal(n).last() == (DIGIT_ZERO + n) as u8);
        assert(number_value(decimal(n), 10) == number_value(decimal(n).drop_last(), 10) * 10 + (
        decimal(n).last() - DIGIT_ZERO) as nat);
    } else {
        lemma_decimal(n / 10);
        assert(decimal(n).drop_last() =~= decimal(n / 10));
        assert(decimal(n).last() - DIGIT_ZERO == n % 10);
        assert((n / 10) * 10 + n % 10 == n);
        assert(number_value(decimal(n), 10) == number_value(decimal(n).drop_last(), 10) * 10 + (
        decimal(n).last() - DIGIT_ZERO) as nat);
    }
}

pub proof fn lemma_number_value_grows(s: Seq<u8>, base: nat, i: int, j: int)
    requires
        0 <= i <= j <= s.len(),
        forall|k: int| 0 <= k < s.len() ==> is_base_digit(#[trigger] s[k], base),
    ensures
        number_value(s.take(i), base) <= number_value(s.take(j), base),
    decreases j - i,
{
    if i < j {
        lemma_number_value_grows(s, base, i, j - 1);
        assert(s.take(j).drop_last() =~= s.take(j - 1));
        assert(number_value(s.take(j - 1), base) <= number_value(s.take(j - 1), base) * base)
            by (nonlinear_arith)
            requires
                base >= 1 || number_value(s.take(j - 1), base) == 0,
        ;
        if base == 0 {
            assert(!is_base_digit(s[0], base));
        }
    }
}

/// The decimal digits of `n`.
pub fn decimal_bytes(n: u64) -> (r: Vec<u8>)
    ensures
        r@ == decimal(n as nat),
    decreases n,
{
    if n < 10 {
        let r = vec![DIGIT_ZERO + n as u8];
        assert(r@ =~= decimal(n as nat));
        r
    } else {
        let mut r = decimal_bytes(n / 10);
        r.push(DIGIT_ZERO + (n % 10) as u8);
        r
    }
}

/// The value of a non-empty string of digits of the given base, if it is at
/// most `limit`.
pub fn parse_number_bytes(s: &[u8], base: u64, limit: u64) -> (r: Option<u64>)
    requires
        2 <= base <= 10,
    ensures
        r == (match parse_number(s@, base as nat, limit as nat) {
            Some(n) => Some(n as u64),
            None => None::<u64>,
        }),
{
    if s.len() == 0 {
        return None;
    }
    let mut val: u64 = 0;
    let mut i: usize = 0;
    while i < s.len()
        invariant
            2 <= base <= 10,
            0 <= i <= s@.len(),
            forall|j: int| 0 <= j < i ==> is_base_digit(#[trigger] s@[j], base as nat),
            val == number_value(s@.take(i as int), base as nat),
            val <= limit,
        decreases s@.len() - i,
    {
        let d = s[i];
        if d < DIGIT_ZERO || d - DIGIT_ZERO >= base as u8 {
            return None;
        }
        let dv = (d - DIGIT_ZERO) as u64;
        assert(s@.take(i + 1).drop_last() =~= s@.take(i as int));
        if dv > limit || val > (limit - dv) / base {
            proof {
                assert(val * base + dv > limit) by (nonlinear_arith)
                    requires
                        dv > limit || val > (limit - dv) as int / (base as int),
                        base >= 2,
                ;
                if forall|k: int| 0 <= k < s@.len() ==> is_base_digit(#[trigger] s@[k], base as nat) {
                    lemma_number_value_grows(s@, base as nat, i + 1, s@.len() as int);
                    assert(s@.take(s@.len() as int) =~= s@);
                }
            }
            return None;
        }
        assert(val * base + dv <= limit) by (nonlinear_arith)
            requires
                val <= (limit - dv) as int / (base as int),
                dv <= limit,
                base >= 2,
        ;
        val = val * base + dv;
        i = i + 1;
    }
    assert(s@.take(s@.len() as int) =~= s@);
    Some(val)
}

/// The value of a non-empty string of decimal digits, if it fits in a `u64`.
pub fn parse_decimal_bytes(s: &[u8]) -> (r: Option<u64>)
    ensures
        r == parse_decimal(s@),
{
    parse_number_bytes(s, 10, u64::MAX)
}

/// The value of a non-empty string of octal digits, if it fits in a `u32`.
pub fn parse_octal_bytes(s: &[u8]) -> (r: Option<u32>)
    ensures
        r == parse_octal(s@),
{
    match parse_number_bytes(s, 8, u32::MAX as u64) {
        Some(n) => Some(n as u32),
        None => None,
    }
}

/// The first position at or after `start` that holds `x`.
pub fn find_byte(s: &[u8], x: u8, start: usize) -> (r: Option<usize>)
    requires
        start <= s@.len(),
    ensures
        match r {
            Some(i) => find_from(s@, x, start as int) == i as int,
            None => find_from(s@, x, start as int) == -1,
        },
{
    let mut i = start;
    while i < s.len()
        invariant
            start <= i <= s@.len(),
            find_from(s@, x, start as int) == find_from(s@, x, i as int),
        decreases s@.len() - i,
    {
        if s[i] == x {
            return Some(i);
        }
        i = i + 1;
    }
    None
}

/// The header `"<kind> <size>\0"`.
pub fn encode_header(kind: ObjectKind, size: u64) -> (r: Vec<u8>)
    ensures
        r@ == header(kind, size as nat),
{
    let mut r = kind.token();
    r.push(SPACE);
    let mut digits = decimal_bytes(size);
    r.append(&mut digits);
    r.push(NUL);
    assert(r@ =~= header(kind, size as nat));
    r
}

/// The kind and size that the header at the start of `b` declares, and the
/// header's length.
pub fn decode_header(b: &[u8]) -> (r: Result<(ObjectKind, u64, usize), ObjectError>)
    ensures
        match decode_header_spec(b@) {
            Ok((k, n, len)) => r == Ok::<_, ObjectError>((k, n, len as usize)),
            Err(e) => r == Err::<(ObjectKind, u64, usize), _>(e),
        },
{
    let nul = match find_byte(b, NUL, 0) {
        Some(i) => i,
        None => return Err(ObjectError::MalformedHeader),
    };
    proof {
        lemma_find_from_bounds(b@, NUL, 0);
    }
    let text = vstd::slice::slice_subrange(b, 0, nul);
    assert(text@ =~= b@.take(nul as int));
    let sp = match find_byte(text, SPACE, 0) {
        Some(i) => i,
        None => return Err(ObjectError::MalformedHeader),
    };
    proof {
        lemma_find_from_bounds(text@, SPACE, 0);
    }
    let token = vstd::slice::slice_subrange(text, 0, sp);
    let digits = vstd::slice::slice_subrange(text, sp + 1, nul);
    assert(token@ =~= text@.take(sp as int));
    assert(digits@ =~= text@.skip(sp + 1));
    let kind = match kind_from_token(token) {
        Ok(k) => k,
        Err(_) => return Err(ObjectError::MalformedHeader),
    };
    match parse_decimal_bytes(digits) {
        Some(n) => {
            assert(nul < b.len());
            Ok((kind, n, nul + 1))
        },
        None => Err(ObjectError::MalformedHeader),
    }
}

/// A header followed by anything decodes back to the kind and size it was
/// made from.
pub proof fn lemma_header_round_trip(kind: ObjectKind, size: u64, rest: Seq<u8>)
    ensures
        decode_header_spec(header(kind, size as nat) + rest) == Ok::<_, ObjectError>(
            (kind, size, header(kind, size as nat).len()),
        ),
{
    let h = header(kind, size as nat);
    let b = h + rest;
    let t = kind_token(kind);
    let d = decimal(size as nat);
    lemma_decimal(size as nat);
    lemma_kind_token_round_trip(kind);
    let nul = h.len() - 1;
    assert forall|j: int| 0 <= j < nul implies b[j] != NUL by {
        if j > t.len() {
            assert(b[j] == d[j - t.len() - 1]);
        }
    }
    lemma_find_from_at(b, NUL, 0, nul);
    let text = b.take(nul);
    assert(text =~= t + seq![SPACE] + d);
    lemma_find_from_at(text, SPACE, 0, t.len() as int);
    assert(text.take(t.len() as int) =~= t);
    assert(text.skip(t.len() as int + 1) =~= d);
}

/// The length of an object id: a SHA-1 digest.
pub const ID_LEN: usize = 20;

/// The mode of a directory entry, `0o40000`.
pub const MODE_TREE: u32 = 16384;

/// The mode of a reference to another repository's commit, `0o160000`.
pub const MODE_COMMIT: u32 = 57344;

/// The kind of object that an entry of the given mode refers to.
pub open spec fn kind_of_mode(m: u32) -> ObjectKind {
    if m == MODE_TREE {
        ObjectKind::Tree
    } else if m == MODE_COMMIT {
        ObjectKind::Commit
    } else {
        ObjectKind::Blob
    }
}

/// The kind of object that the octal mode text `m` refers to.
pub open spec fn mode_kind(m: Seq<u8>) -> Result<ObjectKind, ObjectError> {
    match parse_octal(m) {
        Some(v) => Ok(kind_of_mode(v)),
        None => Err(ObjectError::UnknownMode),
    }
}

/// The kind of object that the octal mode text `m` refers to.
pub fn kind_from_mode_bytes(m: &[u8]) -> (r: Result<ObjectKind, ObjectError>)
    ensures
        r == mode_kind(m@),
{
    match parse_octal_bytes(m) {
        Some(v) => Ok(
            if v == MODE_TREE {
                ObjectKind::Tree
            } else if v == MODE_COMMIT {
                ObjectKind::Commit
            } else {
                ObjectKind::Blob
            },
        ),
        None => Err(ObjectError::UnknownMode),
    }
}

impl ObjectKind {
    /// The kind of object that a tree entry of octal mode `mode` refers to:
    /// `40000` a tree, `160000` a commit, any other number a blob.
    pub fn from_mode(mode: &str) -> (r: Result<ObjectKind, ObjectError>)
        ensures
            r == mode_kind(mode.spec_bytes()),
    {
        kind_from_mode_bytes(mode.as_bytes())
    }
}

/// One tree entry: `"<octal-mode> <name>\0<raw-id>"`.
pub open spec fn tree_entry(mode: Seq<u8>, name: Seq<u8>, id: Seq<u8>) -> Seq<u8> {
    mode + seq![SPACE] + name + seq![NUL] + id
}

/// Appends the bytes of `s` to `out`.
pub fn extend_bytes(out: &mut Vec<u8>, s: &[u8])
    ensures
        final(out)@ == old(out)@ + s@,
{
    let mut i: usize = 0;
    while i < s.len()
        invariant
            i <= s@.len(),
            out@ == old(out)@ + s@.take(i as int),
        decreases s@.len() - i,
    {
        out.push(s[i]);
        i = i + 1;
        assert(out@ =~= old(out)@ + s@.take(i as int));
    }
    assert(s@.take(s@.len() as int) =~= s@);
}

/// A copy of the bytes of `s`.
pub fn copy_bytes(s: &[u8]) -> (r: Vec<u8>)
    ensures
        r@ == s@,
{
    let mut r = Vec::new();
    extend_bytes(&mut r, s);
    assert(r@ =~= s@);
    r
}

/// Appends one tree entry to `out`.
pub fn push_tree_entry(out: &mut Vec<u8>, mode: &[u8], name: &[u8], id: &[u8])
    ensures
        final(out)@ == old(out)@ + tree_entry(mode@, name@, id@),
{
    extend_bytes(out, mode);
    out.push(SPACE);
    extend_bytes(out, name);
    out.push(NUL);
    extend_bytes(out, id);
    assert(out@ =~= old(out)@ + tree_entry(mode@, name@, id@));
}

/// The bytes of one tree entry.
pub fn encode_tree_entry(mode: &[u8], name: &[u8], id: &[u8]) -> (r: Vec<u8>)
    ensures
        r@ == tree_entry(mode@, name@, id@),
{
    let mut r = Vec::new();
    push_tree_entry(&mut r, mode, name, id);
    assert(r@ =~= tree_entry(mode@, name@, id@));
    r
}

/// One decoded tree entry.
#[derive(Clone, Debug)]
pub struct TreeEntry {
    /// The octal mode, as its text.
    pub mode: Vec<u8>,
    /// The entry's name.
    pub name: Vec<u8>,
    /// The raw id of the object it refers to.
    pub id: Vec<u8>,
}

/// A decoded tree entry: mode text, name, raw id.
pub struct EntryView {
    pub mode: Seq<u8>,
    pub name: Seq<u8>,
    pub id: Seq<u8>,
}

impl View for TreeEntry {
    type V = EntryView;

    open spec fn view(&self) -> EntryView {
        EntryView { mode: self.mode@, name: self.name@, id: self.id@ }
    }
}

/// The entries that a tree payload holds, or `None` where it is malformed.
pub open spec fn parse_tree(b: Seq<u8>) -> Option<Seq<EntryView>>
    decreases b.len(),
{
    if b.len() == 0 {
        Some(Seq::empty())
    } else {
        let nul = first_index(b, NUL);
        if nul < 0 || nul + 1 + ID_LEN > b.len() {
            None
        } else {
            let text = b.take(nul);
            let sp = first_index(text, SPACE);
            if sp < 0 || !valid_utf8(text) {
                None
            } else {
                let e = EntryView {
                    mode: text.take(sp),
                    name: text.skip(sp + 1),
                    id: b.subrange(nul + 1, nul + 1 + ID_LEN),
                };
                match parse_tree(b.skip(nul + 1 + ID_LEN)) {
                    Some(rest) => Some(seq![e] + rest),
                    None => None,
                }
            }
        }
    }
}

/// `done` followed by what `rest` holds, if it is well formed.
pub open spec fn prepend_entries(done: Seq<EntryView>, rest: Option<Seq<EntryView>>) -> Option<
    Seq<EntryView>,
> {
    match rest {
        Some(r) => Some(done + r),
        None => None,
    }
}

pub open spec fn entry_views(es: Seq<TreeEntry>) -> Seq<EntryView> {
    es.map_values(|e: TreeEntry| e@)
}

/// The entries of a tree payload, in the order they are stored.
pub fn decode_tree_entries(b: &[u8]) -> (r: Result<Vec<TreeEntry>, ObjectError>)
    ensures
        match parse_tree(b@) {
            Some(es) => r is Ok && entry_views(r->Ok_0@) == es,
            None => r == Err::<Vec<TreeEntry>, _>(ObjectError::MalformedTreeEntry),
        },
{
    let mut out: Vec<TreeEntry> = Vec::new();
    let mut pos: usize = 0;
    assert(b@.skip(0) =~= b@);
    assert(entry_views(out@) =~= Seq::<EntryView>::empty());
    while pos < b.len()
        invariant
            pos <= b@.len(),
            parse_tree(b@) == prepend_entries(entry_views(out@), parse_tree(b@.skip(pos as int))),
        decreases b@.len() - pos,
    {
        let rest = vstd::slice::slice_subrange(b, pos, b.len());
        assert(rest@ =~= b@.skip(pos as int));
        let nul = match find_byte(rest, NUL, 0) {
            Some(i) => i,
            None => return Err(ObjectError::MalformedTreeEntry),
        };
        proof {
            lemma_find_from_bounds(rest@, NUL, 0);
        }
        if rest.len() - nul < 1 + ID_LEN {
            return Err(ObjectError::MalformedTreeEntry);
        }
        let text = vstd::slice::slice_subrange(rest, 0, nul);
        assert(text@ =~= rest@.take(nul as int));
        let sp = match find_byte(text, SPACE, 0) {
            Some(i) => i,
            None => return Err(ObjectError::MalformedTreeEntry),
        };
        if !is_utf8(text) {
            return Err(ObjectError::MalformedTreeEntry);
        }
        proof {
            lemma_find_from_bounds(text@, SPACE, 0);
        }
        let mode = copy_bytes(vstd::slice::slice_subrange(text, 0, sp));
        let name = copy_bytes(vstd::slice::slice_subrange(text, sp + 1, nul));
        let id = copy_bytes(vstd::slice::slice_subrange(rest, nul + 1, nul + 1 + ID_LEN));
        let entry = TreeEntry { mode, name, id };
        assert(entry@ == EntryView {
            mode: text@.take(sp as int),
            name: text@.skip(sp + 1),
            id: rest@.subrange(nul + 1, nul + 1 + ID_LEN),
        }) by {
            assert(entry@.mode =~= text@.take(sp as int));
            assert(entry@.name =~= text@.skip(sp + 1));
            assert(entry@.id =~= rest@.subrange(nul + 1, nul + 1 + ID_LEN));
        }
        let ghost old_views = entry_views(out@);
        out.push(entry);
        assert(entry_views(out@) =~= old_views + seq![entry@]);
        assert(rest@.skip(nul + 1 + ID_LEN) =~= b@.skip(pos + nul + 1 + ID_LEN));
        pos = pos + nul + 1 + ID_LEN;
        assert(parse_tree(b@) == prepend_entries(
            entry_views(out@),
            parse_tree(b@.skip(pos as int)),
        )) by {
            let tail = parse_tree(b@.skip(pos as int));
            if tail is Some {
                assert(old_views + (seq![entry@] + tail->Some_0) =~= entry_views(out@)
                    + tail->Some_0);
            }
        }
    }
    assert(b@.skip(pos as int) =~= Seq::<u8>::empty());
    assert(entry_views(out@) + Seq::<EntryView>::empty() =~= entry_views(out@));
    Ok(out)
}

} // verus!
