//! Reading the condition tables of the two blocks from the lines of their
//! text files: space-separated fields, decimal numbers read as Rust's
//! `str::parse` reads them.

use vstd::prelude::*;
use crate::block_1::{Condition, Node};

verus! {

/// Why a condition file could not be read.
#[derive(Clone, Copy, Debug, PartialEq, Eq, Structural)]
pub enum CondFileError {
    /// A line has fewer fields than its conditions need.
    MissingField,
    /// A field is not a number of the type it is read as.
    BadNumber,
    /// A first-block line names a node outside the table.
    IndexOutOfRange,
    /// The second block's file has a line beyond the last row of the table.
    TooManyLines,
}

/// The ASCII space that separates the fields of a line.
pub const SPACE: u8 = 32;

/// The ASCII codes of `'+'`, `'-'` and `'0'`.
pub const PLUS: u8 = 43;

pub const MINUS: u8 = 45;

pub const ZERO: u8 = 48;

/// The fields of a line split at every space, empty ones included (one
/// field, empty, for an empty line).
pub open spec fn fields(s: Seq<u8>) -> Seq<Seq<u8>>
    decreases s.len(),
{
    if s.len() == 0 {
        seq![Seq::<u8>::empty()]
    } else {
        let p = fields(s.drop_last());
        if s.last() == SPACE {
            p.push(Seq::<u8>::empty())
        } else {
            p.update(p.len() - 1, p.last().push(s.last()))
        }
    }
}

pub proof fn lemma_fields_len(s: Seq<u8>)
    ensures
        fields(s).len() >= 1,
    decreases s.len(),
{
    if s.len() > 0 {
        lemma_fields_len(s.drop_last());
    }
}

/// `b` is an ASCII decimal digit.
pub open spec fn is_digit(b: u8) -> bool {
    ZERO <= b <= ZERO + 9
}

pub open spec fn all_digits(s: Seq<u8>) -> bool {
    forall|i: int| 0 <= i < s.len() ==> #[trigger] is_digit(s[i])
}

/// The value of a string of decimal digits.
pub open spec fn digits_value(s: Seq<u8>) -> int
    decreases s.len(),
{
    if s.len() == 0 {
        0
    } else {
        digits_value(s.drop_last()) * 10 + (s.last() - ZERO)
    }
}

/// The digits after an optional leading `+`.
pub open spec fn unsigned_body(tok: Seq<u8>) -> Seq<u8> {
    if tok.len() > 0 && tok[0] == PLUS {
        tok.drop_first()
    } else {
        tok
    }
}

/// The number `tok` reads as, for an unsigned type whose largest value is
/// `max`: an optional `+` and at least one digit, the value at most `max`.
pub open spec fn unsigned_field(tok: Seq<u8>, max: int) -> Option<int> {
    let body = unsigned_body(tok);
    if body.len() > 0 && all_digits(body) && digits_value(body) <= max {
        Some(digits_value(body))
    } else {
        None
    }
}

/// The number `tok` reads as an `i32`: a `-` and at least one digit, the
/// value at most 2^31, or what `unsigned_field` reads up to 2^31 - 1.
pub open spec fn i32_field(tok: Seq<u8>) -> Option<int> {
    if tok.len() > 0 && tok[0] == MINUS {
        let body = tok.drop_first();
        if body.len() > 0 && all_digits(body) && digits_value(body) <= 0x8000_0000 {
            Some(-digits_value(body))
        } else {
            None
        }
    } else {
        unsigned_field(tok, 0x7fff_ffff)
    }
}

/// A string of digits is worth at least each of its prefixes.
pub proof fn lemma_digits_prefix(s: Seq<u8>, i: int)
    requires
        all_digits(s),
        0 <= i <= s.len(),
    ensures
        digits_value(s.take(i)) <= digits_value(s),
        0 <= digits_value(s.take(i)),
    decreases s.len(),
{
    if s.len() > 0 {
        let p = s.drop_last();
        assert(all_digits(p)) by {
            assert forall|k: int| 0 <= k < p.len() implies #[trigger] is_digit(p[k]) by {
                assert(is_digit(s[k]));
            }
        }
        assert(is_digit(s[s.len() - 1]));
        if i < s.len() {
            assert(p.take(i) =~= s.take(i));
            lemma_digits_prefix(p, i);
            lemma_digits_prefix(p, p.len() as int);
            assert(p.take(p.len() as int) =~= p);
        } else {
            assert(s.take(i) =~= s);
            lemma_digits_prefix(p, p.len() as int);
            assert(p.take(p.len() as int) =~= p);
        }
    }
}

/// The value of the digits `body`, when at most `max`; `None` when a byte is
/// not a digit, there is none, or the value is larger.
fn digits_at_most(body: &[u8], start: usize, max: u64) -> (r: Option<u64>)
    requires
        start <= body@.len(),
        max >= 9,
    ensures
        ({
            let b = body@.skip(start as int);
            match r {
                Some(v) => b.len() > 0 && all_digits(b) && digits_value(b) <= max && v == digits_value(b),
                None => !(b.len() > 0 && all_digits(b) && digits_value(b) <= max),
            }
        }),
{
    let ghost b = body@.skip(start as int);
    if start >= body.len() {
        return None;
    }
    let mut acc: u64 = 0;
    let mut i: usize = start;
    while i < body.len()
        invariant
            start <= i <= body@.len(),
            b == body@.skip(start as int),
            max >= 9,
            all_digits(b.take(i - start)),
            acc == digits_value(b.take(i - start)),
            acc <= max,
        decreases body@.len() - i,
    {
        let c = body[i];
        let ghost k: int = i - start;
        proof {
            assert(body@[i as int] == c);
            assert(b[k] == body@[start + k]);
        }
        if c < ZERO || c > ZERO + 9 {
            proof {
                assert(!is_digit(b[k]));
                assert(!all_digits(b));
            }
            return None;
        }
        let d = (c - ZERO) as u64;
        proof {
            assert(b.take(k + 1).drop_last() =~= b.take(k));
            assert(b.take(k + 1).last() == c);
        }
        if acc > (max - d) / 10 {
            proof {
                assert(acc * 10 + d > max) by (nonlinear_arith)
                    requires
                        acc > (max - d) / 10,
                        d <= 9,
                        max >= 9,
                ;
                if all_digits(b) {
                    lemma_digits_prefix(b, k + 1);
                }
            }
            return None;
        }
        proof {
            assert(acc * 10 + d <= max) by (nonlinear_arith)
                requires
                    acc <= (max - d) / 10,
                    d <= 9,
                    max >= 9,
            ;
            assert(all_digits(b.take(k + 1))) by {
                assert forall|j: int| 0 <= j < k + 1 implies #[trigger] is_digit(b.take(k + 1)[j]) by {
                    if j < k {
                        assert(b.take(k + 1)[j] == b.take(k)[j]);
                    }
                }
            }
        }
        acc = acc * 10 + d;
        i += 1;
    }
    proof {
        assert(b.take(i - start) =~= b);
    }
    Some(acc)
}

/// Reads `tok` as an unsigned number of at most `max`, as `str::parse` does.
pub fn parse_unsigned(tok: &Vec<u8>, max: u64) -> (r: Option<u64>)
    requires
        max >= 9,
    ensures
        match r {
            Some(v) => unsigned_field(tok@, max as int) == Some(v as int),
            None => unsigned_field(tok@, max as int) is None,
        },
{
    let start: usize = if tok.len() > 0 && tok[0] == PLUS {
        1
    } else {
        0
    };
    proof {
        assert(unsigned_body(tok@) =~= tok@.skip(start as int));
    }
    digits_at_most(tok.as_slice(), start, max)
}

/// Reads `tok` as an `i32`, as `str::parse` does.
pub fn parse_i32(tok: &Vec<u8>) -> (r: Option<i32>)
    ensures
        match r {
            Some(v) => i32_field(tok@) == Some(v as int),
            None => i32_field(tok@) is None,
        },
{
    if tok.len() > 0 && tok[0] == MINUS {
        proof {
            assert(tok@.drop_first() =~= tok@.skip(1));
        }
        match digits_at_most(tok.as_slice(), 1, 0x8000_0000) {
            Some(v) => {
                let r: i64 = -(v as i64);
                Some(r as i32)
            },
            None => None,
        }
    } else {
        match parse_unsigned(tok, 0x7fff_ffff) {
            Some(v) => Some(v as i32),
            None => None,
        }
    }
}

/// Splits a line into its fields at every space, as `str::split(" ")` does.
pub fn split_fields(line: &Vec<u8>) -> (r: Vec<Vec<u8>>)
    ensures
        r@.len() == fields(line@).len(),
        forall|k: int| 0 <= k < r@.len() ==> #[trigger] r@[k]@ == fields(line@)[k],
{
    let mut done: Vec<Vec<u8>> = Vec::new();
    let mut cur: Vec<u8> = Vec::new();
    let mut i: usize = 0;
    while i < line.len()
        invariant
            i <= line@.len(),
            done@.len() + 1 == fields(line@.take(i as int)).len(),
            forall|k: int| 0 <= k < done@.len() ==> #[trigger] done@[k]@ == fields(line@.take(i as int))[k],
            cur@ == fields(line@.take(i as int)).last(),
        decreases line@.len() - i,
    {
        let c = line[i];
        let ghost p = fields(line@.take(i as int));
        proof {
            assert(line@.take(i + 1).drop_last() =~= line@.take(i as int));
            assert(line@.take(i + 1).last() == c);
            lemma_fields_len(line@.take(i as int));
        }
        if c == SPACE {
            let ghost d0 = done@;
            let finished = cur;
            done.push(finished);
            cur = Vec::new();
            proof {
                assert(fields(line@.take(i + 1)) == p.push(Seq::<u8>::empty()));
                assert forall|k: int| 0 <= k < done@.len() implies #[trigger] done@[k]@ == fields(line@.take(i + 1))[k] by {
                    if k < done@.len() - 1 {
                        assert(done@[k] == d0[k]);
                    }
                }
            }
        } else {
            cur.push(c);
            proof {
                assert(fields(line@.take(i + 1)) == p.update(p.len() - 1, p.last().push(c)));
            }
        }
        i += 1;
    }
    proof {
        assert(line@.take(i as int) =~= line@);
    }
    done.push(cur);
    proof {
        lemma_fields_len(line@);
    }
    done
}


/// The views of a list of byte vectors.
pub open spec fn views(f: Seq<Vec<u8>>) -> Seq<Seq<u8>> {
    Seq::new(f.len(), |k: int| f[k]@)
}

/// Field `k` of `f` read as an `i32`.
pub open spec fn field_i32(f: Seq<Seq<u8>>, k: int) -> Result<i32, CondFileError> {
    if k >= f.len() {
        Err(CondFileError::MissingField)
    } else {
        match i32_field(f[k]) {
            Some(v) => Ok(v as i32),
            None => Err(CondFileError::BadNumber),
        }
    }
}

/// Field `k` of `f` read as a `u32`.
pub open spec fn field_u32(f: Seq<Seq<u8>>, k: int) -> Result<u32, CondFileError> {
    if k >= f.len() {
        Err(CondFileError::MissingField)
    } else {
        match unsigned_field(f[k], 0xffff_ffff) {
            Some(v) => Ok(v as u32),
            None => Err(CondFileError::BadNumber),
        }
    }
}

/// Field `k` of `f` read as a `u64`.
pub open spec fn field_u64(f: Seq<Seq<u8>>, k: int) -> Result<u64, CondFileError> {
    if k >= f.len() {
        Err(CondFileError::MissingField)
    } else {
        match unsigned_field(f[k], 0xffff_ffff_ffff_ffff) {
            Some(v) => Ok(v as u64),
            None => Err(CondFileError::BadNumber),
        }
    }
}

fn read_i32(f: &Vec<Vec<u8>>, k: usize) -> (r: Result<i32, CondFileError>)
    ensures
        r == field_i32(views(f@), k as int),
{
    if k >= f.len() {
        return Err(CondFileError::MissingField);
    }
    assert(views(f@)[k as int] == f@[k as int]@);
    match parse_i32(&f[k]) {
        Some(v) => Ok(v),
        None => Err(CondFileError::BadNumber),
    }
}

fn read_u32(f: &Vec<Vec<u8>>, k: usize) -> (r: Result<u32, CondFileError>)
    ensures
        r == field_u32(views(f@), k as int),
{
    if k >= f.len() {
        return Err(CondFileError::MissingField);
    }
    assert(views(f@)[k as int] == f@[k as int]@);
    match parse_unsigned(&f[k], 0xffff_ffff) {
        Some(v) => Ok(v as u32),
        None => Err(CondFileError::BadNumber),
    }
}

fn read_u64(f: &Vec<Vec<u8>>, k: usize) -> (r: Result<u64, CondFileError>)
    ensures
        r == field_u64(views(f@), k as int),
{
    if k >= f.len() {
        return Err(CondFileError::MissingField);
    }
    assert(views(f@)[k as int] == f@[k as int]@);
    match parse_unsigned(&f[k], 0xffff_ffff_ffff_ffff) {
        Some(v) => Ok(v),
        None => Err(CondFileError::BadNumber),
    }
}

/// A line of the first block's file, `q ind cref crind add_const`: the node
/// `q + 4` and the condition on it. The fields are read in order and the
/// first that is missing or bad is reported; `q + 4` must lie in the table.
pub open spec fn first_line(line: Seq<u8>) -> Result<(usize, Condition), CondFileError> {
    let f = fields(line);
    match field_u64(f, 0) {
        Err(e) => Err(e),
        Ok(q) => if q + 4 >= 76 {
            Err(CondFileError::IndexOutOfRange)
        } else {
            match field_i32(f, 1) {
                Err(e) => Err(e),
                Ok(ind) => match field_i32(f, 2) {
                    Err(e) => Err(e),
                    Ok(cref) => match field_i32(f, 3) {
                        Err(e) => Err(e),
                        Ok(crind) => match field_i32(f, 4) {
                            Err(e) => Err(e),
                            Ok(add_const) => Ok(
                                ((q + 4) as usize, Condition { ind, cref, crind, add_const }),
                            ),
                        },
                    },
                },
            }
        },
    }
}

/// Reads one line of the first block's file.
pub fn parse_first_line(line: &Vec<u8>) -> (r: Result<(usize, Condition), CondFileError>)
    ensures
        r == first_line(line@),
{
    let f = split_fields(line);
    proof {
        assert(views(f@) =~= fields(line@));
    }
    let q = match read_u64(&f, 0) {
        Err(e) => return Err(e),
        Ok(q) => q,
    };
    if q >= 72 {
        return Err(CondFileError::IndexOutOfRange);
    }
    let ind = match read_i32(&f, 1) {
        Err(e) => return Err(e),
        Ok(v) => v,
    };
    let cref = match read_i32(&f, 2) {
        Err(e) => return Err(e),
        Ok(v) => v,
    };
    let crind = match read_i32(&f, 3) {
        Err(e) => return Err(e),
        Ok(v) => v,
    };
    let add_const = match read_i32(&f, 4) {
        Err(e) => return Err(e),
        Ok(v) => v,
    };
    Ok(((q + 4) as usize, Condition { ind, cref, crind, add_const }))
}

/// `s` with `c` added and the whole stably sorted by `ind`, when `s` already is:
/// `c` goes after every condition whose `ind` is at most its own.
pub open spec fn insert_sorted(s: Seq<Condition>, c: Condition) -> Seq<Condition>
    decreases s.len(),
{
    if s.len() == 0 {
        seq![c]
    } else if s.last().ind <= c.ind {
        s.push(c)
    } else {
        insert_sorted(s.drop_last(), c).push(s.last())
    }
}

/// The conditions are in order of `ind`.
pub open spec fn sorted_by_ind(s: Seq<Condition>) -> bool {
    forall|i: int, j: int| 0 <= i <= j < s.len() ==> #[trigger] s[i].ind <= #[trigger] s[j].ind
}

proof fn lemma_insert_sorted(s: Seq<Condition>, c: Condition, p: int)
    requires
        0 <= p <= s.len(),
        forall|k: int| p <= k < s.len() ==> #[trigger] s[k].ind > c.ind,
        p == 0 || s[p - 1].ind <= c.ind,
    ensures
        insert_sorted(s, c) == s.insert(p, c),
    decreases s.len(),
{
    if s.len() == p {
        if p == 0 {
            assert(s.insert(p, c) =~= seq![c]);
        } else {
            assert(s.insert(p, c) =~= s.push(c));
        }
    } else {
        let d = s.drop_last();
        assert(s.last().ind > c.ind);
        assert(p == 0 || d[p - 1].ind <= c.ind);
        lemma_insert_sorted(d, c, p);
        assert(d.insert(p, c).push(s.last()) =~= s.insert(p, c));
    }
}

/// Where `insert_sorted` puts `c`: after the last condition whose `ind` is
/// at most its own, counting from the end.
pub open spec fn insert_pos(s: Seq<Condition>, c: Condition) -> int
    decreases s.len(),
{
    if s.len() == 0 {
        0
    } else if s.last().ind <= c.ind {
        s.len() as int
    } else {
        insert_pos(s.drop_last(), c)
    }
}

proof fn lemma_insert_pos(s: Seq<Condition>, c: Condition)
    ensures
        0 <= insert_pos(s, c) <= s.len(),
        forall|k: int| insert_pos(s, c) <= k < s.len() ==> #[trigger] s[k].ind > c.ind,
        insert_pos(s, c) == 0 || s[insert_pos(s, c) - 1].ind <= c.ind,
    decreases s.len(),
{
    if s.len() > 0 && s.last().ind > c.ind {
        let d = s.drop_last();
        lemma_insert_pos(d, c);
        let p = insert_pos(d, c);
        assert forall|k: int| p <= k < s.len() implies #[trigger] s[k].ind > c.ind by {
            if k < s.len() - 1 {
                assert(s[k] == d[k]);
            }
        }
        if p > 0 {
            assert(s[p - 1] == d[p - 1]);
        }
    }
}

/// Inserting into a sorted list keeps it sorted.
pub proof fn lemma_insert_keeps_sorted(s: Seq<Condition>, c: Condition)
    requires
        sorted_by_ind(s),
    ensures
        sorted_by_ind(insert_sorted(s, c)),
        insert_sorted(s, c).len() == s.len() + 1,
{
    lemma_insert_pos(s, c);
    let p = insert_pos(s, c);
    lemma_insert_sorted(s, c, p);
    let r = s.insert(p, c);
    assert forall|i: int, j: int| 0 <= i <= j < r.len() implies #[trigger] r[i].ind <= #[trigger] r[j].ind by {
        if i < p && j < p {
            assert(r[i] == s[i] && r[j] == s[j]);
        } else if i < p && j == p {
            assert(r[i] == s[i] && s[i].ind <= s[p - 1].ind);
        } else if i < p {
            assert(r[i] == s[i] && r[j] == s[j - 1]);
        } else if i == p && j > p {
            assert(r[j] == s[j - 1]);
        } else if i > p {
            assert(r[i] == s[i - 1] && r[j] == s[j - 1]);
        }
    }
}

/// Adds `c` to `list` in its place by `ind`, after the conditions with an
/// equal or smaller `ind`.
fn insert_condition(list: &mut Vec<Condition>, c: Condition)
    ensures
        final(list)@ == insert_sorted(old(list)@, c),
{
    let len = list.len();
    let mut p = len;
    while p > 0
        invariant
            p <= len,
            len == list@.len(),
            forall|k: int| p <= k < len ==> #[trigger] list@[k].ind > c.ind,
        ensures
            p <= len,
            forall|k: int| p <= k < len ==> #[trigger] list@[k].ind > c.ind,
            p == 0 || list@[p - 1].ind <= c.ind,
        decreases p,
    {
        if list[p - 1].ind <= c.ind {
            break;
        }
        p -= 1;
    }
    proof {
        lemma_insert_sorted(list@, c, p as int);
    }
    list.insert(p, c);
}

/// The condition lists of the first block's file, one per node, each kept
/// sorted by `ind` as lines are added; unreadable lines (`None`) are skipped.
/// The first bad line's error when there is one.
pub open spec fn first_table(lines: Seq<Option<Vec<u8>>>) -> Result<Seq<Seq<Condition>>, CondFileError>
    decreases lines.len(),
{
    if lines.len() == 0 {
        Ok(Seq::new(76, |k: int| Seq::<Condition>::empty()))
    } else {
        match first_table(lines.drop_last()) {
            Err(e) => Err(e),
            Ok(p) => match lines.last() {
                None => Ok(p),
                Some(l) => match first_line(l@) {
                    Err(e) => Err(e),
                    Ok((q, c)) => Ok(p.update(q as int, insert_sorted(p[q as int], c))),
                },
            },
        }
    }
}

pub proof fn lemma_first_table(lines: Seq<Option<Vec<u8>>>)
    ensures
        first_table(lines) matches Ok(t) ==> t.len() == 76 && forall|k: int| 0 <= k < 76 ==> #[trigger] sorted_by_ind(t[k]),
    decreases lines.len(),
{
    if lines.len() > 0 {
        lemma_first_table(lines.drop_last());
        if let Ok(p) = first_table(lines.drop_last()) {
            if let Some(l) = lines.last() {
                if let Ok((q, c)) = first_line(l@) {
                    lemma_insert_keeps_sorted(p[q as int], c);
                }
            }
        }
    }
}

/// Once a prefix of the lines fails, the whole fails the same way.
proof fn lemma_first_table_err(lines: Seq<Option<Vec<u8>>>, n: int)
    requires
        0 <= n <= lines.len(),
        first_table(lines.take(n)) is Err,
    ensures
        first_table(lines) == first_table(lines.take(n)),
    decreases lines.len() - n,
{
    if n < lines.len() {
        assert(lines.take(n + 1).drop_last() =~= lines.take(n));
        lemma_first_table_err(lines, n + 1);
    } else {
        assert(lines.take(n) =~= lines);
    }
}

/// Builds the first block's condition table from the lines of its file:
/// every node starts with zero values and bitfields, and each line adds its
/// condition to its node, the list kept sorted by `ind`. The first line that
/// cannot be read as a condition gives the error.
pub fn build_condition_list(lines: &Vec<Option<Vec<u8>>>) -> (r: Result<[Node; 76], CondFileError>)
    ensures
        match r {
            Ok(t) => first_table(lines@) matches Ok(ls) && forall|k: int|
                #![trigger t[k]]
                0 <= k < 76 ==> {
                    &&& t[k].val == 0
                    &&& t[k].tval == 0
                    &&& t[k].bf@ == seq![0u32, 0u32, 0u32, 0u32]
                    &&& t[k].list@ == ls[k]
                    &&& sorted_by_ind(t[k].list@)
                },
            Err(e) => first_table(lines@) == Err::<Seq<Seq<Condition>>, CondFileError>(e),
        },
{
    let mut res: [Node; 76] = [
        Node::default(), Node::default(), Node::default(), Node::default(), Node::default(), Node::default(),
        Node::default(), Node::default(), Node::default(), Node::default(), Node::default(), Node::default(),
        Node::default(), Node::default(), Node::default(), Node::default(), Node::default(), Node::default(),
        Node::default(), Node::default(), Node::default(), Node::default(), Node::default(), Node::default(),
        Node::default(), Node::default(), Node::default(), Node::default(), Node::default(), Node::default(),
        Node::default(), Node::default(), Node::default(), Node::default(), Node::default(), Node::default(),
        Node::default(), Node::default(), Node::default(), Node::default(), Node::default(), Node::default(),
        Node::default(), Node::default(), Node::default(), Node::default(), Node::default(), Node::default(),
        Node::default(), Node::default(), Node::default(), Node::default(), Node::default(), Node::default(),
        Node::default(), Node::default(), Node::default(), Node::default(), Node::default(), Node::default(),
        Node::default(), Node::default(), Node::default(), Node::default(), Node::default(), Node::default(),
        Node::default(), Node::default(), Node::default(), Node::default(), Node::default(), Node::default(),
        Node::default(), Node::default(), Node::default(), Node::default(),
    ];
    proof {
        assert(lines@.take(0) =~= Seq::<Option<Vec<u8>>>::empty());
    }
    let mut i: usize = 0;
    while i < lines.len()
        invariant
            i <= lines@.len(),
            first_table(lines@.take(i as int)) matches Ok(ls) && ls.len() == 76 && forall|k: int|
                #![trigger res[k]]
                0 <= k < 76 ==> {
                    &&& res[k].val == 0
                    &&& res[k].tval == 0
                    &&& res[k].bf@ == seq![0u32, 0u32, 0u32, 0u32]
                    &&& res[k].list@ == ls[k]
                },
        decreases lines@.len() - i,
    {
        let ghost ls0 = first_table(lines@.take(i as int))->Ok_0;
        proof {
            assert(lines@.take(i + 1).drop_last() =~= lines@.take(i as int));
            assert(lines@.take(i + 1).last() == lines@[i as int]);
            lemma_first_table(lines@.take(i + 1));
        }
        match &lines[i] {
            None => {
                assert(first_table(lines@.take(i + 1)) == first_table(lines@.take(i as int)));
            },
            Some(l) => {
                match parse_first_line(l) {
                    Err(e) => {
                        proof {
                            lemma_first_table_err(lines@, i as int + 1);
                        }
                        return Err(e);
                    },
                    Ok((q, c)) => {
                        let ghost r0 = res;
                        insert_condition(&mut res[q].list, c);
                        proof {
                            let ls1 = ls0.update(q as int, insert_sorted(ls0[q as int], c));
                            assert(first_table(lines@.take(i + 1)) == Ok::<Seq<Seq<Condition>>, CondFileError>(ls1));
                            assert forall|k: int| #![trigger res[k]] 0 <= k < 76 implies {
                                &&& res[k].val == 0
                                &&& res[k].tval == 0
                                &&& res[k].bf@ == seq![0u32, 0u32, 0u32, 0u32]
                                &&& res[k].list@ == ls1[k]
                            } by {
                                if k != q {
                                    assert(res[k] == r0[k]);
                                }
                            }
                        }
                    },
                }
            },
        }
        i += 1;
    }
    proof {
        assert(lines@.take(i as int) =~= lines@);
        lemma_first_table(lines@);
    }
    Ok(res)
}


/// Row `i` of the second block's table from a line `g bit kind`: field 0 is
/// read before the row is known to exist, the others after.
pub open spec fn second_line(line: Seq<u8>, i: int) -> Result<Seq<u32>, CondFileError> {
    let f = fields(line);
    match field_u32(f, 0) {
        Err(e) => Err(e),
        Ok(g) => if i >= 309 {
            Err(CondFileError::TooManyLines)
        } else {
            match field_u32(f, 1) {
                Err(e) => Err(e),
                Ok(bit) => match field_u32(f, 2) {
                    Err(e) => Err(e),
                    Ok(kind) => Ok(seq![g, bit, kind]),
                },
            }
        },
    }
}

/// The rows of the second block's table: row `i` from line `i`, rows without
/// a readable line left zero. The first bad line's error when there is one.
pub open spec fn second_table(lines: Seq<Option<Vec<u8>>>) -> Result<Seq<Seq<u32>>, CondFileError>
    decreases lines.len(),
{
    if lines.len() == 0 {
        Ok(Seq::new(309, |k: int| seq![0u32, 0u32, 0u32]))
    } else {
        match second_table(lines.drop_last()) {
            Err(e) => Err(e),
            Ok(p) => match lines.last() {
                None => Ok(p),
                Some(l) => match second_line(l@, lines.len() - 1) {
                    Err(e) => Err(e),
                    Ok(row) => Ok(p.update(lines.len() - 1, row)),
                },
            },
        }
    }
}

/// Once a prefix of the lines fails, the whole fails the same way.
proof fn lemma_second_table_err(lines: Seq<Option<Vec<u8>>>, n: int)
    requires
        0 <= n <= lines.len(),
        second_table(lines.take(n)) is Err,
    ensures
        second_table(lines) == second_table(lines.take(n)),
    decreases lines.len() - n,
{
    if n < lines.len() {
        assert(lines.take(n + 1).drop_last() =~= lines.take(n));
        lemma_second_table_err(lines, n + 1);
    } else {
        assert(lines.take(n) =~= lines);
    }
}

/// Reads line `i` of the second block's file into a row.
fn parse_second_line(line: &Vec<u8>, i: usize) -> (r: Result<[u32; 3], CondFileError>)
    ensures
        match r {
            Ok(row) => second_line(line@, i as int) == Ok::<Seq<u32>, CondFileError>(row@),
            Err(e) => second_line(line@, i as int) == Err::<Seq<u32>, CondFileError>(e),
        },
{
    let f = split_fields(line);
    proof {
        assert(views(f@) =~= fields(line@));
    }
    let g = match read_u32(&f, 0) {
        Err(e) => return Err(e),
        Ok(v) => v,
    };
    if i >= 309 {
        return Err(CondFileError::TooManyLines);
    }
    let bit = match read_u32(&f, 1) {
        Err(e) => return Err(e),
        Ok(v) => v,
    };
    let kind = match read_u32(&f, 2) {
        Err(e) => return Err(e),
        Ok(v) => v,
    };
    let row = [g, bit, kind];
    proof {
        assert(row@ =~= seq![g, bit, kind]);
    }
    Ok(row)
}

/// Builds the second block's condition table from the lines of its file:
/// line `i` gives row `i`; rows whose line is unreadable (`None`) or missing
/// stay zero. The first line that cannot be read as a row gives the error.
pub fn build_condition_list_block_2(lines: &Vec<Option<Vec<u8>>>) -> (r: Result<[[u32; 3]; 309], CondFileError>)
    ensures
        match r {
            Ok(t) => second_table(lines@) matches Ok(rows) && forall|k: int| 0 <= k < 309 ==> #[trigger] t[k]@ == rows[k],
            Err(e) => second_table(lines@) == Err::<Seq<Seq<u32>>, CondFileError>(e),
        },
{
    let mut res: [[u32; 3]; 309] = [[0; 3]; 309];
    proof {
        assert(lines@.take(0) =~= Seq::<Option<Vec<u8>>>::empty());
        assert forall|k: int| 0 <= k < 309 implies #[trigger] res[k]@ == seq![0u32, 0u32, 0u32] by {
            assert(res[k]@ =~= seq![0u32, 0u32, 0u32]);
        }
    }
    let mut i: usize = 0;
    while i < lines.len()
        invariant
            i <= lines@.len(),
            second_table(lines@.take(i as int)) matches Ok(rows) && rows.len() == 309 && forall|k: int|
                0 <= k < 309 ==> #[trigger] res[k]@ == rows[k],
        decreases lines@.len() - i,
    {
        let ghost rows0 = second_table(lines@.take(i as int))->Ok_0;
        proof {
            assert(lines@.take(i + 1).drop_last() =~= lines@.take(i as int));
            assert(lines@.take(i + 1).last() == lines@[i as int]);
            assert(lines@.take(i + 1).len() - 1 == i);
        }
        match &lines[i] {
            None => {
                assert(second_table(lines@.take(i + 1)) == second_table(lines@.take(i as int)));
            },
            Some(l) => {
                match parse_second_line(l, i) {
                    Err(e) => {
                        proof {
                            lemma_second_table_err(lines@, i as int + 1);
                        }
                        return Err(e);
                    },
                    Ok(row) => {
                        let ghost r0 = res;
                        res[i] = row;
                        proof {
                            let rows1 = rows0.update(i as int, row@);
                            assert(second_table(lines@.take(i + 1)) == Ok::<Seq<Seq<u32>>, CondFileError>(rows1));
                            assert forall|k: int| 0 <= k < 309 implies #[trigger] res[k]@ == rows1[k] by {
                                if k != i {
                                    assert(res[k] == r0[k]);
                                }
                            }
                        }
                    },
                }
            },
        }
        i += 1;
    }
    proof {
        assert(lines@.take(i as int) =~= lines@);
    }
    Ok(res)
}

} // verus!
