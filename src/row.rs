//! Rows and their fixed-size on-disk image: id, then the username and the
//! email, each zero-padded to its field size.
use vstd::prelude::*;
use vstd::bytes::{
    spec_u32_from_le_bytes, spec_u32_to_le_bytes, u32_from_le_bytes, u32_to_le_bytes,
    lemma_auto_spec_u32_to_from_le_bytes,
};
use vstd::slice::slice_subrange;
use vstd::utf8::{encode_utf8, valid_utf8, encode_utf8_valid_utf8};
use crate::layout::{ID_SIZE, USERNAME_SIZE, EMAIL_SIZE, USERNAME_OFFSET, EMAIL_OFFSET, ROW_SIZE};

verus! {

/// A row of the table.
pub struct Row {
    pub id: u32,
    pub username: String,
    pub email: String,
}

/// A row as values: its id and the UTF-8 bytes of its two strings.
pub type RowValue = (u32, Seq<u8>, Seq<u8>);

impl View for Row {
    type V = RowValue;

    open spec fn view(&self) -> RowValue {
        (self.id, encode_utf8(self.username@), encode_utf8(self.email@))
    }
}

pub open spec fn has_no_zero(b: Seq<u8>) -> bool {
    forall|i: int| 0 <= i < b.len() ==> b[i] != 0u8
}

/// A row that the on-disk image holds exactly: each string fits its field
/// and has no NUL byte.
pub open spec fn row_fits(r: RowValue) -> bool {
    &&& r.1.len() <= USERNAME_SIZE
    &&& r.2.len() <= EMAIL_SIZE
    &&& has_no_zero(r.1)
    &&& has_no_zero(r.2)
}

/// `b` followed by zeros up to length `n`.
pub open spec fn padded(b: Seq<u8>, n: nat) -> Seq<u8> {
    b + Seq::new((n - b.len()) as nat, |i: int| 0u8)
}

/// The on-disk image of a row.
pub open spec fn row_image(r: RowValue) -> Seq<u8> {
    spec_u32_to_le_bytes(r.0) + padded(r.1, USERNAME_SIZE as nat) + padded(r.2, EMAIL_SIZE as nat)
}

/// `s` without its trailing zero bytes.
pub open spec fn trim_zeros(s: Seq<u8>) -> Seq<u8>
    decreases s.len(),
{
    if s.len() == 0 {
        s
    } else if s.last() != 0 {
        s
    } else {
        trim_zeros(s.drop_last())
    }
}

/// The row that an image of `ROW_SIZE` bytes reads as.
pub open spec fn decode_row_image(s: Seq<u8>) -> RowValue {
    (
        spec_u32_from_le_bytes(s.subrange(0, ID_SIZE as int)),
        trim_zeros(s.subrange(USERNAME_OFFSET as int, EMAIL_OFFSET as int)),
        trim_zeros(s.subrange(EMAIL_OFFSET as int, ROW_SIZE as int)),
    )
}

/// Whether an image reads as a row whose strings are valid UTF-8.
pub open spec fn image_is_text(s: Seq<u8>) -> bool {
    valid_utf8(decode_row_image(s).1) && valid_utf8(decode_row_image(s).2)
}

proof fn lemma_trim_padded(b: Seq<u8>, n: nat)
    requires
        b.len() <= n,
        has_no_zero(b),
    ensures
        trim_zeros(padded(b, n)) == b,
    decreases n - b.len(),
{
    if b.len() == n {
        assert(padded(b, n) =~= b);
        if b.len() > 0 {
            assert(b.last() != 0);
        }
    } else {
        let p = padded(b, n);
        assert(p.last() == 0);
        assert(p.drop_last() =~= padded(b, (n - 1) as nat));
        lemma_trim_padded(b, (n - 1) as nat);
    }
}

/// Reading back the image of a row that fits gives that row again.
pub proof fn lemma_row_image_round_trip(r: RowValue)
    requires
        row_fits(r),
    ensures
        row_image(r).len() == ROW_SIZE,
        decode_row_image(row_image(r)) == r,
{
    lemma_auto_spec_u32_to_from_le_bytes();
    let s = row_image(r);
    let u = padded(r.1, USERNAME_SIZE as nat);
    let e = padded(r.2, EMAIL_SIZE as nat);
    assert(s.subrange(0, 4) =~= spec_u32_to_le_bytes(r.0));
    assert(s.subrange(4, 36) =~= u);
    assert(s.subrange(36, 291) =~= e);
    lemma_trim_padded(r.1, USERNAME_SIZE as nat);
    lemma_trim_padded(r.2, EMAIL_SIZE as nat);
}

/// Relies on `String::from_utf8`: it succeeds exactly on valid UTF-8, and
/// the string it returns holds those bytes.
#[verifier::external_body]
pub(crate) fn string_from_utf8(bytes: Vec<u8>) -> (r: Option<String>)
    ensures
        r.is_some() == valid_utf8(bytes@),
        r matches Some(s) ==> encode_utf8(s@) == bytes@,
{
    String::from_utf8(bytes).ok()
}

/// Appends the bytes of `b`, then zeros up to `n` of them in all.
fn push_padded(out: &mut Vec<u8>, b: &[u8], n: usize)
    requires
        b@.len() <= n,
        old(out)@.len() + n <= usize::MAX,
    ensures
        final(out)@ == old(out)@ + padded(b@, n as nat),
{
    let mut k: usize = 0;
    while k < b.len()
        invariant
            k <= b@.len() <= n,
            out@ == old(out)@ + b@.subrange(0, k as int),
            old(out)@.len() + n <= usize::MAX,
        decreases b@.len() - k,
    {
        out.push(b[k]);
        k = k + 1;
        assert(b@.subrange(0, k as int) =~= b@.subrange(0, k - 1) + seq![b@[k - 1]]);
    }
    assert(b@.subrange(0, k as int) =~= b@);
    while k < n
        invariant
            b@.len() <= k <= n,
            out@ == old(out)@ + b@ + Seq::new((k - b@.len()) as nat, |i: int| 0u8),
            old(out)@.len() + n <= usize::MAX,
        decreases n - k,
    {
        out.push(0u8);
        k = k + 1;
        assert(Seq::new((k - b@.len()) as nat, |i: int| 0u8) =~= Seq::new(
            (k - 1 - b@.len()) as nat,
            |i: int| 0u8,
        ) + seq![0u8]);
    }
    assert(old(out)@ + b@ + Seq::new((k - b@.len()) as nat, |i: int| 0u8) =~= old(out)@ + padded(
        b@,
        n as nat,
    ));
}

/// The byte length of a string, as stored on disk.
pub fn string_byte_len(s: &String) -> (r: usize)
    ensures
        r == encode_utf8(s@).len(),
{
    s.as_str().as_bytes().len()
}

/// Whether the bytes of `s` include a NUL.
pub fn string_has_nul(s: &String) -> (r: bool)
    ensures
        r == !has_no_zero(encode_utf8(s@)),
{
    let b = s.as_str().as_bytes();
    let mut k: usize = 0;
    while k < b.len()
        invariant
            b@ == encode_utf8(s@),
            k <= b@.len(),
            forall|i: int| 0 <= i < k ==> b@[i] != 0u8,
        decreases b@.len() - k,
    {
        if b[k] == 0 {
            return true;
        }
        k = k + 1;
    }
    false
}

impl Row {
    /// Whether this row can be stored exactly.
    pub fn fits(&self) -> (r: bool)
        ensures
            r == row_fits(self@),
    {
        string_byte_len(&self.username) <= USERNAME_SIZE && string_byte_len(&self.email)
            <= EMAIL_SIZE && !string_has_nul(&self.username) && !string_has_nul(&self.email)
    }
}

/// The on-disk image of a row.
pub fn serialize_row(row: &Row) -> (r: Vec<u8>)
    requires
        row@.1.len() <= USERNAME_SIZE,
        row@.2.len() <= EMAIL_SIZE,
    ensures
        r@ == row_image(row@),
        r@.len() == ROW_SIZE,
{
    let mut out = u32_to_le_bytes(row.id);
    push_padded(&mut out, row.username.as_str().as_bytes(), USERNAME_SIZE);
    push_padded(&mut out, row.email.as_str().as_bytes(), EMAIL_SIZE);
    out
}

/// The length of `s` once its trailing zero bytes are dropped.
fn trimmed_len(s: &[u8]) -> (r: usize)
    ensures
        r <= s@.len(),
        s@.subrange(0, r as int) == trim_zeros(s@),
{
    let mut end: usize = s.len();
    assert(s@.subrange(0, end as int) =~= s@);
    while end > 0 && s[end - 1] == 0
        invariant
            end <= s@.len(),
            trim_zeros(s@.subrange(0, end as int)) == trim_zeros(s@),
        decreases end,
    {
        assert(s@.subrange(0, end as int).drop_last() =~= s@.subrange(0, end - 1));
        end = end - 1;
    }
    if end > 0 {
        assert(s@.subrange(0, end as int).last() == s@[end - 1]);
    }
    end
}

/// Reads a row from its image; `None` where a string is not valid UTF-8.
pub fn deserialize_row(bytes: &[u8]) -> (r: Option<Row>)
    requires
        bytes@.len() == ROW_SIZE,
    ensures
        r.is_some() == image_is_text(bytes@),
        r matches Some(row) ==> row@ == decode_row_image(bytes@),
{
    let id = u32_from_le_bytes(slice_subrange(bytes, 0, ID_SIZE));
    let u = slice_subrange(bytes, USERNAME_OFFSET, EMAIL_OFFSET);
    let e = slice_subrange(bytes, EMAIL_OFFSET, ROW_SIZE);
    let ul = trimmed_len(u);
    let el = trimmed_len(e);
    let username = string_from_utf8(vstd::slice::slice_to_vec(slice_subrange(u, 0, ul)));
    let email = string_from_utf8(vstd::slice::slice_to_vec(slice_subrange(e, 0, el)));
    match (username, email) {
        (Some(username), Some(email)) => Some(Row { id, username, email }),
        _ => None,
    }
}

/// A row that fits is read back from its own image.
pub proof fn lemma_serialize_deserialize(row: Row)
    requires
        row_fits(row@),
    ensures
        image_is_text(row_image(row@)),
        decode_row_image(row_image(row@)) == row@,
{
    lemma_row_image_round_trip(row@);
    encode_utf8_valid_utf8(row.username@);
    encode_utf8_valid_utf8(row.email@);
}

} // verus!
