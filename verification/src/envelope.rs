//! The commit object that is hashed: a size declaration, the fixed header,
//! the candidate message and a final newline.

use vstd::prelude::*;
use vstd::string::StringSliceAdditionalSpecFns;
use crate::slot::append_bytes;

verus! {

/// `n` in decimal ASCII digits, without leading zeros.
pub open spec fn decimal(n: nat) -> Seq<u8>
    decreases n,
{
    if n < 10 {
        seq![(0x30 + n) as u8]
    } else {
        decimal(n / 10).push((0x30 + n % 10) as u8)
    }
}

/// The header of a commit: its tree, its parent, and the author, who is the
/// committer too, with the time and the time zone.
pub open spec fn commit_header(
    tree: Seq<u8>,
    parent: Seq<u8>,
    author: Seq<u8>,
    timestamp: Seq<u8>,
    timezone: Seq<u8>,
) -> Seq<u8> {
    let signature = author + " ".spec_bytes() + timestamp + " ".spec_bytes() + timezone;
    "tree ".spec_bytes() + tree + "\nparent ".spec_bytes() + parent + "\nauthor ".spec_bytes()
        + signature + "\ncommitter ".spec_bytes() + signature + "\n\n".spec_bytes()
}

/// The commit object of a header and a message: the word `commit`, a space,
/// the length of what follows the zero byte in decimal, a zero byte, the
/// header, the message, and a newline.
pub open spec fn commit_object(header: Seq<u8>, message: Seq<u8>) -> Seq<u8> {
    "commit ".spec_bytes() + decimal(header.len() + message.len() + 1) + seq![0u8] + header
        + message + seq![0x0au8]
}

/// Appends `n` in decimal to `out`.
fn push_decimal(n: u128, out: &mut Vec<u8>)
    ensures
        final(out)@ == old(out)@ + decimal(n as nat),
    decreases n,
{
    if n >= 10 {
        push_decimal(n / 10, out);
    }
    let ghost before = out@;
    let digit: u8 = (n % 10) as u8;
    out.push(0x30 + digit);
    proof {
        if n >= 10 {
            assert(out@ =~= old(out)@ + decimal((n / 10) as nat).push((0x30 + n % 10) as u8));
        } else {
            assert(out@ =~= old(out)@ + seq![(0x30 + n) as u8]);
        }
    }
}

/// Builds the header of a commit from its fields.
pub fn build_commit_header(
    tree: &str,
    parent: &str,
    author: &str,
    timestamp: &str,
    timezone: &str,
) -> (header: Vec<u8>)
    ensures
        header@ == commit_header(
            tree.spec_bytes(),
            parent.spec_bytes(),
            author.spec_bytes(),
            timestamp.spec_bytes(),
            timezone.spec_bytes(),
        ),
{
    let mut signature: Vec<u8> = Vec::new();
    append_bytes(&mut signature, author.as_bytes());
    append_bytes(&mut signature, " ".as_bytes());
    append_bytes(&mut signature, timestamp.as_bytes());
    append_bytes(&mut signature, " ".as_bytes());
    append_bytes(&mut signature, timezone.as_bytes());
    let mut header: Vec<u8> = Vec::new();
    append_bytes(&mut header, "tree ".as_bytes());
    append_bytes(&mut header, tree.as_bytes());
    append_bytes(&mut header, "\nparent ".as_bytes());
    append_bytes(&mut header, parent.as_bytes());
    append_bytes(&mut header, "\nauthor ".as_bytes());
    append_bytes(&mut header, signature.as_slice());
    append_bytes(&mut header, "\ncommitter ".as_bytes());
    append_bytes(&mut header, signature.as_slice());
    append_bytes(&mut header, "\n\n".as_bytes());
    assert(Seq::<u8>::empty() + author.spec_bytes() =~= author.spec_bytes());
    assert(Seq::<u8>::empty() + "tree ".spec_bytes() =~= "tree ".spec_bytes());
    header
}

/// Writes the commit object of `header` and `message` into `buffer`, whose
/// earlier contents are dropped, and returns its length.
pub fn build_commit_object(header: &[u8], message: &[u8], buffer: &mut Vec<u8>) -> (len: usize)
    ensures
        final(buffer)@ == commit_object(header@, message@),
        len == final(buffer)@.len(),
{
    let content_len: u128 = header.len() as u128 + message.len() as u128 + 1;
    buffer.clear();
    append_bytes(buffer, "commit ".as_bytes());
    push_decimal(content_len, buffer);
    buffer.push(0);
    append_bytes(buffer, header);
    append_bytes(buffer, message);
    buffer.push(0x0a);
    assert(buffer@ =~= commit_object(header@, message@));
    buffer.len()
}

} // verus!
