//! Statements: turning a command line into an insert or a select.
use vstd::prelude::*;
use vstd::string::StringSliceAdditionalSpecFns;
use vstd::utf8::{
    valid_utf8, valid_utf8_split, is_char_boundary_iff_not_is_continuation_byte,
    length_of_first_scalar, pop_first_scalar, encode_utf8_valid_utf8,
};
use crate::layout::{USERNAME_SIZE, EMAIL_SIZE};
use crate::row::{Row, has_no_zero, string_from_utf8};

verus! {

/// The outcome of a meta command (a line starting with `.`).
#[allow(non_camel_case_types)]
#[derive(PartialEq, Eq, Structural, Clone, Copy, Debug)]
pub enum MetaCommandResult {
    META_COMMAND_SUCCESS,
    META_COMMAND_UNRECOGNIZED_COMMAND,
}

/// Why a command line does not make a statement.
#[allow(non_camel_case_types)]
#[derive(PartialEq, Eq, Structural, Clone, Copy, Debug)]
pub enum PrepareResult {
    PREPARE_SUCCESS,
    PREPARE_UNRECOGNIZED_STATEMENT,
    PREPARE_SYNTAX_ERROR,
    PREPARE_STRING_TOO_LONG,
    PREPARE_NEGATIVE_ID,
}

#[allow(non_camel_case_types)]
#[derive(PartialEq, Eq, Structural, Clone, Copy, Debug)]
pub enum StatementType {
    STATEMENT_INSERT,
    STATEMENT_SELECT,
    STATEMENT_UNSUPPORTED,
}

/// A prepared statement: a select, or an insert with its row.
pub struct Statement {
    pub stmt_type: StatementType,
    pub row_to_insert: Option<Row>,
}

pub const SPACE: u8 = 32;

/// `s` cut at every space; two spaces in a row give an empty piece.
pub open spec fn split_spaces(s: Seq<u8>) -> Seq<Seq<u8>>
    decreases s.len(),
{
    if s.len() == 0 {
        seq![Seq::empty()]
    } else {
        let init = split_spaces(s.drop_last());
        if s.last() == SPACE {
            init.push(Seq::empty())
        } else {
            init.update(init.len() - 1, init.last().push(s.last()))
        }
    }
}

proof fn lemma_split_spaces_nonempty(s: Seq<u8>)
    ensures
        split_spaces(s).len() >= 1,
    decreases s.len(),
{
    if s.len() > 0 {
        lemma_split_spaces_nonempty(s.drop_last());
    }
}

pub open spec fn is_digit(b: u8) -> bool {
    48 <= b <= 57
}

pub open spec fn all_digits(d: Seq<u8>) -> bool {
    d.len() > 0 && forall|i: int| 0 <= i < d.len() ==> is_digit(#[trigger] d[i])
}

/// The number that ASCII decimal digits spell.
pub open spec fn digits_value(d: Seq<u8>) -> nat
    decreases d.len(),
{
    if d.len() == 0 {
        0
    } else {
        digits_value(d.drop_last()) * 10 + (d.last() - 48) as nat
    }
}

/// The `i32` that a token spells: an optional sign, then decimal digits.
pub open spec fn parse_i32(t: Seq<u8>) -> Option<int> {
    let (neg, d) = if t.len() > 0 && t[0] == 45 {
        (true, t.drop_first())
    } else if t.len() > 0 && t[0] == 43 {
        (false, t.drop_first())
    } else {
        (false, t)
    };
    if !all_digits(d) {
        None
    } else if neg {
        if digits_value(d) <= 0x8000_0000 {
            Some(-(digits_value(d) as int))
        } else {
            None
        }
    } else if digits_value(d) <= 0x7fff_ffff {
        Some(digits_value(d) as int)
    } else {
        None
    }
}

proof fn lemma_digits_value_grows(d: Seq<u8>, k: int)
    requires
        0 <= k <= d.len(),
        forall|i: int| 0 <= i < d.len() ==> is_digit(#[trigger] d[i]),
    ensures
        digits_value(d.subrange(0, k)) <= digits_value(d),
    decreases d.len() - k,
{
    if k < d.len() {
        lemma_digits_value_grows(d, k + 1);
        assert(d.subrange(0, k + 1).drop_last() =~= d.subrange(0, k));
    } else {
        assert(d.subrange(0, k) =~= d);
    }
}

/// Reads a token as an `i32`.
pub fn parse_id(t: &[u8]) -> (r: Option<i64>)
    ensures
        r matches Some(v) ==> parse_i32(t@) == Some(v as int),
        r is None ==> parse_i32(t@) is None,
{
    let n = t.len();
    let mut start: usize = 0;
    let mut neg = false;
    if n > 0 && t[0] == 45 {
        start = 1;
        neg = true;
    } else if n > 0 && t[0] == 43 {
        start = 1;
    }
    let ghost d = t@.subrange(start as int, n as int);
    proof {
        if start == 1 {
            assert(d =~= t@.drop_first());
        } else {
            assert(d =~= t@);
        }
    }
    proof {
        assert(parse_i32(t@) == (if neg {
            if all_digits(d) && digits_value(d) <= 0x8000_0000 {
                Some(-(digits_value(d) as int))
            } else {
                None
            }
        } else if all_digits(d) && digits_value(d) <= 0x7fff_ffff {
            Some(digits_value(d) as int)
        } else {
            None
        }));
    }
    if start == n {
        return None;
    }
    let mut acc: u64 = 0;
    let mut i: usize = start;
    while i < n
        invariant
            n == t@.len(),
            start <= i <= n,
            d == t@.subrange(start as int, n as int),
            parse_i32(t@) == (if neg {
                if all_digits(d) && digits_value(d) <= 0x8000_0000 {
                    Some(-(digits_value(d) as int))
                } else {
                    None
                }
            } else if all_digits(d) && digits_value(d) <= 0x7fff_ffff {
                Some(digits_value(d) as int)
            } else {
                None
            }),
            forall|k: int| start <= k < i ==> is_digit(#[trigger] t@[k]),
            acc == digits_value(t@.subrange(start as int, i as int)),
            acc <= 0x8000_0000,
        decreases n - i,
    {
        if !(48 <= t[i] && t[i] <= 57) {
            proof {
                assert(d[i - start] == t@[i as int]);
                assert(!is_digit(d[i - start]));
            }
            return None;
        }
        proof {
            assert(t@.subrange(start as int, i + 1).drop_last() =~= t@.subrange(start as int, i as int));
        }
        acc = acc * 10 + (t[i] - 48) as u64;
        i = i + 1;
        if acc > 0x8000_0000 {
            proof {
                if all_digits(d) {
                    assert(t@.subrange(start as int, i as int) =~= d.subrange(0, i - start));
                    lemma_digits_value_grows(d, i - start);
                }
            }
            return None;
        }
    }
    proof {
        assert(t@.subrange(start as int, i as int) =~= d);
        assert forall|k: int| 0 <= k < d.len() implies is_digit(#[trigger] d[k]) by {
            assert(d[k] == t@[start + k]);
        }
    }
    if neg {
        if acc > 0x8000_0000 {
            return None;
        }
        Some(-(acc as i64))
    } else {
        if acc > 0x7fff_ffff {
            return None;
        }
        Some(acc as i64)
    }
}

/// Piece `i` of `split_spaces(s)` is `s[a..b]`, starting at the beginning
/// or after a space, and ending at a space, or at the end for the last piece.
pub open spec fn piece_at(s: Seq<u8>, i: int, a: int, b: int) -> bool {
    &&& 0 <= a <= b <= s.len()
    &&& split_spaces(s)[i] == s.subrange(a, b)
    &&& (a == 0 || s[a - 1] == SPACE)
    &&& (i == split_spaces(s).len() - 1 ==> b == s.len())
    &&& (i < split_spaces(s).len() - 1 ==> b < s.len() && s[b] == SPACE)
}

pub open spec fn has_piece(s: Seq<u8>, i: int) -> bool {
    exists|a: int, b: int| #[trigger] piece_at(s, i, a, b)
}

/// Every piece of `split_spaces(s)` is a stretch of `s` that starts at the
/// beginning or after a space and ends at a space, or at the end for the
/// last piece.
proof fn lemma_split_positions(s: Seq<u8>)
    ensures
        forall|i: int| 0 <= i < split_spaces(s).len() ==> #[trigger] has_piece(s, i),
    decreases s.len(),
{
    lemma_split_spaces_nonempty(s);
    if s.len() == 0 {
        assert forall|i: int| 0 <= i < split_spaces(s).len() implies #[trigger] has_piece(s, i) by {
            assert(split_spaces(s)[i] =~= s.subrange(0, 0));
            assert(piece_at(s, i, 0, 0));
        }
    } else {
        let t = s.drop_last();
        lemma_split_positions(t);
        lemma_split_spaces_nonempty(t);
        let pt = split_spaces(t);
        let ps = split_spaces(s);
        assert forall|i: int| 0 <= i < ps.len() implies #[trigger] has_piece(s, i) by {
            if s.last() == SPACE && i == pt.len() {
                assert(ps[i] =~= s.subrange(s.len() as int, s.len() as int));
                assert(piece_at(s, i, s.len() as int, s.len() as int));
            } else {
                assert(has_piece(t, i));
                let (a, b) = choose|a: int, b: int| piece_at(t, i, a, b);
                if s.last() != SPACE && i == pt.len() - 1 {
                    assert(ps[i] =~= s.subrange(a, s.len() as int));
                    assert(piece_at(s, i, a, s.len() as int));
                } else {
                    assert(ps[i] =~= s.subrange(a, b));
                    assert(piece_at(s, i, a, b));
                }
            }
        }
    }
}

/// A stretch of valid UTF-8 that starts at the beginning or after a space
/// and ends at a space or at the end is valid UTF-8.
proof fn lemma_piece_valid(s: Seq<u8>, a: int, b: int)
    requires
        valid_utf8(s),
        0 <= a <= b <= s.len(),
        a == 0 || s[a - 1] == SPACE,
        b == s.len() || s[b] == SPACE,
    ensures
        valid_utf8(s.subrange(a, b)),
{
    let u = s.subrange(a, s.len() as int);
    if a == 0 {
        assert(u =~= s);
    } else {
        is_char_boundary_iff_not_is_continuation_byte(s, a - 1);
        valid_utf8_split(s, a - 1);
        let w = s.subrange(a - 1, s.len() as int);
        assert(w[0] == SPACE);
        assert(length_of_first_scalar(w) == 1);
        assert(pop_first_scalar(w) =~= u);
    }
    assert(valid_utf8(u));
    if b == s.len() {
        assert(s.subrange(a, b) =~= u);
    } else {
        let k = b - a;
        assert(u[k] == SPACE);
        is_char_boundary_iff_not_is_continuation_byte(u, k);
        valid_utf8_split(u, k);
        assert(u.subrange(0, k) =~= s.subrange(a, b));
    }
}

/// The pieces of a valid UTF-8 line between spaces are valid UTF-8.
proof fn lemma_pieces_valid(s: Seq<u8>, i: int)
    requires
        valid_utf8(s),
        0 <= i < split_spaces(s).len(),
    ensures
        valid_utf8(split_spaces(s)[i]),
{
    lemma_split_positions(s);
    assert(has_piece(s, i));
    let (a, b) = choose|a: int, b: int| piece_at(s, i, a, b);
    lemma_piece_valid(s, a, b);
}

pub open spec fn bytes_view(v: Seq<Vec<u8>>) -> Seq<Seq<u8>> {
    Seq::new(v.len(), |i: int| v[i]@)
}

/// The pieces of `s` between spaces.
pub fn split_on_spaces(s: &[u8]) -> (r: Vec<Vec<u8>>)
    ensures
        bytes_view(r@) == split_spaces(s@),
{
    let mut out: Vec<Vec<u8>> = Vec::new();
    out.push(Vec::new());
    let mut i: usize = 0;
    proof {
        assert(bytes_view(out@) =~= split_spaces(s@.subrange(0, 0)));
    }
    while i < s.len()
        invariant
            i <= s@.len(),
            out@.len() >= 1,
            bytes_view(out@) == split_spaces(s@.subrange(0, i as int)),
        decreases s@.len() - i,
    {
        let ghost prev = s@.subrange(0, i as int);
        proof {
            assert(s@.subrange(0, i + 1).drop_last() =~= prev);
            lemma_split_spaces_nonempty(prev);
        }
        if s[i] == SPACE {
            out.push(Vec::new());
            proof {
                assert(bytes_view(out@) =~= split_spaces(prev).push(Seq::empty()));
            }
        } else {
            let last = out.len() - 1;
            let mut piece = out.pop().unwrap();
            piece.push(s[i]);
            out.push(piece);
            proof {
                assert(bytes_view(out@) =~= split_spaces(prev).update(
                    last as int,
                    split_spaces(prev).last().push(s@[i as int]),
                ));
            }
        }
        i = i + 1;
    }
    proof {
        assert(s@.subrange(0, i as int) =~= s@);
    }
    out
}

/// Whether `p` starts `s`.
pub fn starts_with(s: &[u8], p: &[u8]) -> (r: bool)
    ensures
        r == (p@.len() <= s@.len() && s@.subrange(0, p@.len() as int) == p@),
{
    if p.len() > s.len() {
        return false;
    }
    let mut i: usize = 0;
    while i < p.len()
        invariant
            p@.len() <= s@.len(),
            i <= p@.len(),
            forall|k: int| 0 <= k < i ==> s@[k] == p@[k],
        decreases p@.len() - i,
    {
        if s[i] != p[i] {
            assert(s@.subrange(0, p@.len() as int)[i as int] != p@[i as int]);
            return false;
        }
        i = i + 1;
    }
    assert(s@.subrange(0, p@.len() as int) =~= p@);
    true
}

/// What an insert line's pieces prepare to, as an error or the row's values.
pub open spec fn insert_outcome(pieces: Seq<Seq<u8>>) -> Result<(u32, Seq<u8>, Seq<u8>), PrepareResult> {
    if pieces.len() < 4 {
        Err(PrepareResult::PREPARE_SYNTAX_ERROR)
    } else if parse_i32(pieces[1]) is None {
        Err(PrepareResult::PREPARE_SYNTAX_ERROR)
    } else if parse_i32(pieces[1])->0 < 0 {
        Err(PrepareResult::PREPARE_NEGATIVE_ID)
    } else if pieces[2].len() > USERNAME_SIZE || pieces[3].len() > EMAIL_SIZE {
        Err(PrepareResult::PREPARE_STRING_TOO_LONG)
    } else if !has_no_zero(pieces[2]) || !has_no_zero(pieces[3]) {
        Err(PrepareResult::PREPARE_SYNTAX_ERROR)
    } else {
        Ok((parse_i32(pieces[1])->0 as u32, pieces[2], pieces[3]))
    }
}

/// Prepares `insert <id> <username> <email>`.
pub fn prepare_insert(command: &str) -> (r: Result<Statement, PrepareResult>)
    ensures
        ({
            let pieces = split_spaces(command.spec_bytes());
            match insert_outcome(pieces) {
                Err(e) => r == Err::<Statement, PrepareResult>(e),
                Ok(v) => r matches Ok(st) && st.stmt_type == StatementType::STATEMENT_INSERT && (
                st.row_to_insert matches Some(row) && row@ == v),
            }
        }),
{
    let pieces = split_on_spaces(command.as_bytes());
    let ghost pv = bytes_view(pieces@);
    if pieces.len() < 4 {
        return Err(PrepareResult::PREPARE_SYNTAX_ERROR);
    }
    assert(pv[1] == pieces@[1]@ && pv[2] == pieces@[2]@ && pv[3] == pieces@[3]@);
    proof {
        encode_utf8_valid_utf8(command@);
        lemma_pieces_valid(command.spec_bytes(), 2);
        lemma_pieces_valid(command.spec_bytes(), 3);
    }
    let id = match parse_id(pieces[1].as_slice()) {
        Some(v) => v,
        None => {
            return Err(PrepareResult::PREPARE_SYNTAX_ERROR);
        },
    };
    if id < 0 {
        return Err(PrepareResult::PREPARE_NEGATIVE_ID);
    }
    if pieces[2].len() > USERNAME_SIZE || pieces[3].len() > EMAIL_SIZE {
        return Err(PrepareResult::PREPARE_STRING_TOO_LONG);
    }
    if has_nul(pieces[2].as_slice()) || has_nul(pieces[3].as_slice()) {
        return Err(PrepareResult::PREPARE_SYNTAX_ERROR);
    }
    let username = match string_from_utf8(pieces[2].clone()) {
        Some(s) => s,
        None => {
            return Err(PrepareResult::PREPARE_SYNTAX_ERROR);
        },
    };
    let email = match string_from_utf8(pieces[3].clone()) {
        Some(s) => s,
        None => {
            return Err(PrepareResult::PREPARE_SYNTAX_ERROR);
        },
    };
    Ok(
        Statement {
            stmt_type: StatementType::STATEMENT_INSERT,
            row_to_insert: Some(Row { id: id as u32, username, email }),
        },
    )
}

fn has_nul(b: &[u8]) -> (r: bool)
    ensures
        r == !has_no_zero(b@),
{
    let mut k: usize = 0;
    while k < b.len()
        invariant
            k <= b@.len(),
            forall|i: int| 0 <= i < k ==> b@[i] != 0u8,
        decreases b@.len() - k,
    {
        if b[k] == 0 {
            return true;
        }
        k = k + 1;
    }
    false
}

/// Prepares a command line: an insert, a select, or neither.
pub fn prepare_statement(command: &str) -> (r: Result<Statement, PrepareResult>)
    ensures
        ({
            let b = command.spec_bytes();
            if b.len() >= 6 && b.subrange(0, 6) == seq![105u8, 110, 115, 101, 114, 116] {
                match insert_outcome(split_spaces(b)) {
                    Err(e) => r == Err::<Statement, PrepareResult>(e),
                    Ok(v) => r matches Ok(st) && st.stmt_type == StatementType::STATEMENT_INSERT
                        && (st.row_to_insert matches Some(row) && row@ == v),
                }
            } else if b.len() >= 6 && b.subrange(0, 6) == seq![115u8, 101, 108, 101, 99, 116] {
                (r matches Ok(st) && st.stmt_type == StatementType::STATEMENT_SELECT
                    && st.row_to_insert is None)
            } else {
                r == Err::<Statement, PrepareResult>(PrepareResult::PREPARE_UNRECOGNIZED_STATEMENT)
            }
        }),
{
    let b = command.as_bytes();
    let insert_word: [u8; 6] = [105, 110, 115, 101, 114, 116];
    let select_word: [u8; 6] = [115, 101, 108, 101, 99, 116];
    if starts_with(b, insert_word.as_slice()) {
        assert(insert_word@ =~= seq![105u8, 110, 115, 101, 114, 116]);
        prepare_insert(command)
    } else if starts_with(b, select_word.as_slice()) {
        assert(insert_word@ =~= seq![105u8, 110, 115, 101, 114, 116]);
        assert(select_word@ =~= seq![115u8, 101, 108, 101, 99, 116]);
        Ok(Statement { stmt_type: StatementType::STATEMENT_SELECT, row_to_insert: None })
    } else {
        assert(insert_word@ =~= seq![105u8, 110, 115, 101, 114, 116]);
        assert(select_word@ =~= seq![115u8, 101, 108, 101, 99, 116]);
        Err(PrepareResult::PREPARE_UNRECOGNIZED_STATEMENT)
    }
}

} // verus!
