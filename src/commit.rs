//! Commit objects: a `tree` line, an optional `parent` line, `author` and
//! `committer` lines, a blank line and the message.

use vstd::prelude::*;
use vstd::string::StringSliceAdditionalSpecFns;

use crate::codec::{decimal, decimal_bytes, extend_bytes, ObjectKind, DIGIT_ZERO, SPACE};
use crate::listing::NEWLINE;
use crate::store::{encoding, Object, StoredObject};
use crate::trusted::{deflated, inflated, sha1_digest};

verus! {

/// The byte `'-'`.
pub const MINUS: u8 = 45;

/// The byte `'+'`.
pub const PLUS: u8 = 43;

/// A signed number in decimal, with a leading `'-'` where it is negative.
pub open spec fn signed_decimal(n: int) -> Seq<u8> {
    if n < 0 {
        seq![MINUS] + decimal((-n) as nat)
    } else {
        decimal(n as nat)
    }
}

/// A number in decimal with at least two digits.
pub open spec fn two_digits(n: nat) -> Seq<u8> {
    if n < 10 {
        seq![DIGIT_ZERO] + decimal(n)
    } else {
        decimal(n)
    }
}

/// A time zone offset in seconds, as `±HHMM`.
pub open spec fn tz_text(offset: int) -> Seq<u8> {
    let a: nat = if offset < 0 {
        (-offset) as nat
    } else {
        offset as nat
    };
    seq![if offset < 0 { MINUS } else { PLUS }] + two_digits(a / 3600) + two_digits((a % 3600) / 60)
}

/// An `author` or `committer` line.
pub open spec fn identity_line(
    role: Seq<u8>,
    name: Seq<u8>,
    email: Seq<u8>,
    timestamp: int,
    tz_offset: int,
) -> Seq<u8> {
    role + seq![SPACE] + name + " <".spec_bytes() + email + "> ".spec_bytes() + signed_decimal(
        timestamp,
    ) + seq![SPACE] + tz_text(tz_offset) + seq![NEWLINE]
}

/// The text of a commit.
pub open spec fn commit_text(
    tree: Seq<u8>,
    parent: Option<Seq<u8>>,
    message: Seq<u8>,
    name: Seq<u8>,
    email: Seq<u8>,
    timestamp: int,
    tz_offset: int,
) -> Seq<u8> {
    "tree ".spec_bytes() + tree + seq![NEWLINE] + match parent {
        Some(p) => "parent ".spec_bytes() + p + seq![NEWLINE],
        None => Seq::empty(),
    } + identity_line("author".spec_bytes(), name, email, timestamp, tz_offset) + identity_line(
        "committer".spec_bytes(),
        name,
        email,
        timestamp,
        tz_offset,
    ) + seq![NEWLINE] + message + seq![NEWLINE]
}

fn push_str(out: &mut Vec<u8>, s: &str)
    ensures
        final(out)@ == old(out)@ + s.spec_bytes(),
{
    extend_bytes(out, s.as_bytes());
}

fn push_signed_decimal(out: &mut Vec<u8>, n: i64)
    ensures
        final(out)@ == old(out)@ + signed_decimal(n as int),
{
    if n < 0 {
        out.push(MINUS);
        let a: u64 = (-(n + 1)) as u64 + 1;
        let mut d = decimal_bytes(a);
        out.append(&mut d);
    } else {
        let mut d = decimal_bytes(n as u64);
        out.append(&mut d);
    }
    assert(out@ =~= old(out)@ + signed_decimal(n as int));
}

fn push_two_digits(out: &mut Vec<u8>, n: u64)
    ensures
        final(out)@ == old(out)@ + two_digits(n as nat),
{
    if n < 10 {
        out.push(DIGIT_ZERO);
    }
    let mut d = decimal_bytes(n);
    out.append(&mut d);
    assert(out@ =~= old(out)@ + two_digits(n as nat));
}

fn push_tz(out: &mut Vec<u8>, offset: i32)
    ensures
        final(out)@ == old(out)@ + tz_text(offset as int),
{
    let a: u64 = if offset < 0 {
        out.push(MINUS);
        (-(offset as i64)) as u64
    } else {
        out.push(PLUS);
        offset as u64
    };
    push_two_digits(out, a / 3600);
    push_two_digits(out, (a % 3600) / 60);
    assert(out@ =~= old(out)@ + tz_text(offset as int));
}

fn push_identity_line(
    out: &mut Vec<u8>,
    role: &str,
    name: &str,
    email: &str,
    timestamp: i64,
    tz_offset: i32,
)
    ensures
        final(out)@ == old(out)@ + identity_line(
            role.spec_bytes(),
            name.spec_bytes(),
            email.spec_bytes(),
            timestamp as int,
            tz_offset as int,
        ),
{
    push_str(out, role);
    out.push(SPACE);
    push_str(out, name);
    push_str(out, " <");
    push_str(out, email);
    push_str(out, "> ");
    push_signed_decimal(out, timestamp);
    out.push(SPACE);
    push_tz(out, tz_offset);
    out.push(NEWLINE);
    assert(out@ =~= old(out)@ + identity_line(
        role.spec_bytes(),
        name.spec_bytes(),
        email.spec_bytes(),
        timestamp as int,
        tz_offset as int,
    ));
}

/// The text of a commit of the tree `tree_hash`, with one parent or none,
/// by the given identity at the given time: author and committer alike.
pub fn commit_body(
    tree_hash: &str,
    parent_hash: Option<&str>,
    message: &str,
    name: &str,
    email: &str,
    timestamp: i64,
    tz_offset: i32,
) -> (r: Vec<u8>)
    ensures
        r@ == commit_text(
            tree_hash.spec_bytes(),
            match parent_hash {
                Some(p) => Some(p.spec_bytes()),
                None => None,
            },
            message.spec_bytes(),
            name.spec_bytes(),
            email.spec_bytes(),
            timestamp as int,
            tz_offset as int,
        ),
{
    let mut out: Vec<u8> = Vec::new();
    push_str(&mut out, "tree ");
    push_str(&mut out, tree_hash);
    out.push(NEWLINE);
    let ghost after_tree = out@;
    match parent_hash {
        Some(p) => {
            push_str(&mut out, "parent ");
            push_str(&mut out, p);
            out.push(NEWLINE);
        },
        None => {},
    }
    let ghost after_parent = out@;
    push_identity_line(&mut out, "author", name, email, timestamp, tz_offset);
    push_identity_line(&mut out, "committer", name, email, timestamp, tz_offset);
    out.push(NEWLINE);
    push_str(&mut out, message);
    out.push(NEWLINE);
    assert(out@ =~= commit_text(
        tree_hash.spec_bytes(),
        match parent_hash {
            Some(p) => Some(p.spec_bytes()),
            None => None,
        },
        message.spec_bytes(),
        name.spec_bytes(),
        email.spec_bytes(),
        timestamp as int,
        tz_offset as int,
    ));
    out
}

/// The commit object of the tree `tree_hash`, with one parent or none, by
/// the given identity at the given time.
pub fn git_write_commit(
    tree_hash: &str,
    parent_hash: Option<&str>,
    message: &str,
    name: &str,
    email: &str,
    timestamp: i64,
    tz_offset: i32,
) -> (r: StoredObject)
    ensures
        ({
            let text = commit_text(
                tree_hash.spec_bytes(),
                match parent_hash {
                    Some(p) => Some(p.spec_bytes()),
                    None => None,
                },
                message.spec_bytes(),
                name.spec_bytes(),
                email.spec_bytes(),
                timestamp as int,
                tz_offset as int,
            );
            &&& r.id@ == sha1_digest(encoding(ObjectKind::Commit, text))
            &&& r.compressed@ == deflated(encoding(ObjectKind::Commit, text))
            &&& inflated(r.compressed@) == Some(encoding(ObjectKind::Commit, text))
        }),
{
    let body = commit_body(tree_hash, parent_hash, message, name, email, timestamp, tz_offset);
    assert(body.len() <= u64::MAX);
    let object = Object::new(ObjectKind::Commit, body);
    assert(object.payload@.take(object.expected_size as int) =~= object.payload@);
    match object.write() {
        Ok(stored) => stored,
        Err(_) => {
            assert(false);
            StoredObject { id: [0u8; 20], compressed: Vec::new() }
        },
    }
}

} // verus!
