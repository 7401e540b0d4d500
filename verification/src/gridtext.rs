//! The tile-grid text format: row-delimited, comma-separated signed decimal
//! integers. The grammar and the value of every numeral are defined here as
//! spec functions, and the executable splitting and parsing routines are
//! verified against them.

use vstd::prelude::*;
use vstd::slice::slice_subrange;

verus! {

/// Line feed.
pub const NL: u8 = 10;

/// Carriage return.
pub const CR: u8 = 13;

/// Field separator.
pub const COMMA: u8 = 44;

/// Plus sign.
pub const PLUS: u8 = 43;

/// Minus sign.
pub const MINUS: u8 = 45;

/// The maximal line-feed-separated segments of `s`. A final segment is kept
/// only where it is nonempty, so text ending in a line feed yields no extra
/// empty line, as `str::lines` has it.
pub open spec fn raw_lines(s: Seq<u8>) -> Seq<Seq<u8>>
    decreases s.len(),
{
    if s.len() == 0 {
        Seq::empty()
    } else if s[0] == NL {
        seq![Seq::<u8>::empty()] + raw_lines(s.skip(1))
    } else {
        let rest = raw_lines(s.skip(1));
        if rest.len() == 0 {
            seq![s]
        } else {
            seq![seq![s[0]] + rest[0]] + rest.skip(1)
        }
    }
}

/// One trailing carriage return removed, as `str::lines` has it.
pub open spec fn strip_cr(line: Seq<u8>) -> Seq<u8> {
    if line.len() > 0 && line[line.len() - 1] == CR {
        line.drop_last()
    } else {
        line
    }
}

/// The lines of the text `s`: line-feed-separated, each stripped of one
/// trailing carriage return, with no final empty line.
pub open spec fn lines_of(s: Seq<u8>) -> Seq<Seq<u8>> {
    raw_lines(s).map_values(|l: Seq<u8>| strip_cr(l))
}

/// The comma-separated fields of `line`. Splitting is untermindated, so
/// there is always at least one field, and a trailing comma yields an empty
/// final field.
pub open spec fn fields_of(line: Seq<u8>) -> Seq<Seq<u8>>
    decreases line.len(),
{
    if line.len() == 0 {
        seq![Seq::<u8>::empty()]
    } else if line[0] == COMMA {
        seq![Seq::<u8>::empty()] + fields_of(line.skip(1))
    } else {
        let rest = fields_of(line.skip(1));
        seq![seq![line[0]] + rest[0]] + rest.skip(1)
    }
}

/// There is always at least one field.
pub proof fn lemma_fields_nonempty(line: Seq<u8>)
    ensures
        fields_of(line).len() >= 1,
    decreases line.len(),
{
    if line.len() != 0 && line[0] != COMMA {
        lemma_fields_nonempty(line.skip(1));
    }
}

/// An ASCII decimal digit.
pub open spec fn is_digit(b: u8) -> bool {
    48 <= b <= 57
}

/// Every byte of `s` is a digit.
pub open spec fn all_digits(s: Seq<u8>) -> bool {
    forall|i: int| 0 <= i < s.len() ==> is_digit(#[trigger] s[i])
}

/// The value of the digit string `s`, read in base ten.
pub open spec fn digits_val(s: Seq<u8>) -> int
    decreases s.len(),
{
    if s.len() == 0 {
        0
    } else {
        digits_val(s.drop_last()) * 10 + (s.last() - 48)
    }
}

/// The digits of the numeral `s`, after an optional leading sign.
pub open spec fn int_body(s: Seq<u8>) -> Seq<u8> {
    if s.len() > 0 && (s[0] == PLUS || s[0] == MINUS) {
        s.skip(1)
    } else {
        s
    }
}

/// The sign of the numeral `s`.
pub open spec fn int_sign(s: Seq<u8>) -> int {
    if s.len() > 0 && s[0] == MINUS {
        -1
    } else {
        1
    }
}

/// `s` is a well-formed signed decimal numeral: an optional sign, then at
/// least one digit and nothing else.
pub open spec fn is_int_literal(s: Seq<u8>) -> bool {
    int_body(s).len() > 0 && all_digits(int_body(s))
}

/// The mathematical value of the numeral `s`.
pub open spec fn int_val(s: Seq<u8>) -> int {
    int_sign(s) * digits_val(int_body(s))
}

/// What parsing `s` as a 64-bit signed integer yields: its value where `s`
/// is a well-formed numeral whose value fits, nothing otherwise.
pub open spec fn parse_i64_spec(s: Seq<u8>) -> Option<i64> {
    if is_int_literal(s) && i64::MIN <= int_val(s) <= i64::MAX {
        Some(int_val(s) as i64)
    } else {
        None
    }
}

/// The cells of one grid line: every comma-separated field read as a signed
/// 64-bit integer, or nothing where any field is not one.
pub open spec fn row_of(line: Seq<u8>) -> Option<Seq<i64>> {
    let fs = fields_of(line);
    if forall|i: int| 0 <= i < fs.len() ==> parse_i64_spec(#[trigger] fs[i]) is Some {
        Some(Seq::new(fs.len(), |i: int| parse_i64_spec(fs[i])->Some_0))
    } else {
        None
    }
}

/// The grid denoted by the text `s`: one row per line, or nothing where any
/// field of any line fails to parse.
pub open spec fn grid_of(s: Seq<u8>) -> Option<Seq<Seq<i64>>> {
    let ls = lines_of(s);
    if forall|i: int| 0 <= i < ls.len() ==> row_of(#[trigger] ls[i]) is Some {
        Some(Seq::new(ls.len(), |i: int| row_of(ls[i])->Some_0))
    } else {
        None
    }
}

/// A digit string's value is never negative.
pub proof fn lemma_digits_val_nonneg(s: Seq<u8>)
    requires
        all_digits(s),
    ensures
        digits_val(s) >= 0,
    decreases s.len(),
{
    if s.len() > 0 {
        assert(all_digits(s.drop_last()));
        lemma_digits_val_nonneg(s.drop_last());
    }
}

/// Extending a digit string never shrinks its value.
pub proof fn lemma_digits_val_mono(s: Seq<u8>, i: int, j: int)
    requires
        all_digits(s),
        0 <= i <= j <= s.len(),
    ensures
        digits_val(s.subrange(0, i)) <= digits_val(s.subrange(0, j)),
    decreases j - i,
{
    if i < j {
        lemma_digits_val_mono(s, i, j - 1);
        let p = s.subrange(0, j);
        assert(p.drop_last() =~= s.subrange(0, j - 1));
        assert(all_digits(s.subrange(0, j - 1)));
        lemma_digits_val_nonneg(s.subrange(0, j - 1));
    }
}

/// Parse `s` as a 64-bit signed integer, as [`parse_i64_spec`] has it: an
/// optional sign, then at least one digit; the value must fit.
pub fn parse_i64(s: &[u8]) -> (r: Option<i64>)
    ensures
        r == parse_i64_spec(s@),
{
    let len: usize = s.len();
    if len == 0 {
        return None;
    }
    let first: u8 = s[0];
    let start: usize = if first == PLUS || first == MINUS {
        1
    } else {
        0
    };
    proof {
        if start == 1 {
            assert(int_body(s@) =~= s@.subrange(1, len as int));
        } else {
            assert(int_body(s@) =~= s@.subrange(0, len as int));
        }
    }
    if start == len {
        return None;
    }
    let ghost body = int_body(s@);
    let mut acc: i64 = 0;
    let mut i: usize = start;
    while i < len
        invariant
            start <= i <= len,
            start < len <= s@.len(),
            body == int_body(s@),
            body =~= s@.subrange(start as int, len as int),
            forall|j: int| start <= j < i ==> is_digit(#[trigger] s@[j]),
            acc <= 0,
            acc == -digits_val(s@.subrange(start as int, i as int)),
        decreases len - i,
    {
        let b: u8 = s[i];
        if b < 48 || b > 57 {
            proof {
                assert(body[i - start] == s@[i as int]);
                assert(!is_int_literal(s@));
            }
            return None;
        }
        let ghost pre = s@.subrange(start as int, i as int);
        let ghost ext = s@.subrange(start as int, i as int + 1);
        proof {
            assert(ext.drop_last() =~= pre);
            assert(all_digits(pre));
            assert(digits_val(ext) == digits_val(pre) * 10 + (s@[i as int] - 48));
        }
        let d: i64 = (b - 48) as i64;
        let t: i64 = match acc.checked_mul(10) {
            Some(t) => t,
            None => {
                proof {
                    lemma_out_of_range(s@, start as int, i as int + 1);
                }
                return None;
            },
        };
        acc = match t.checked_sub(d) {
            Some(v) => v,
            None => {
                proof {
                    lemma_out_of_range(s@, start as int, i as int + 1);
                }
                return None;
            },
        };
        i = i + 1;
    }
    proof {
        assert(body =~= s@.subrange(start as int, len as int));
        assert(all_digits(body));
        assert(is_int_literal(s@));
        assert(acc == -digits_val(body));
    }
    if first == MINUS {
        Some(acc)
    } else {
        if acc == i64::MIN {
            proof {
                assert(int_val(s@) == digits_val(body));
            }
            None
        } else {
            Some(-acc)
        }
    }
}

/// Where some digit prefix of the body already exceeds the 64-bit magnitude,
/// the whole numeral parses to nothing.
proof fn lemma_out_of_range(s: Seq<u8>, start: int, k: int)
    requires
        0 <= start <= k <= s.len(),
        start < s.len(),
        int_body(s) =~= s.subrange(start, s.len() as int),
        all_digits(s.subrange(start, k)),
        digits_val(s.subrange(start, k)) > 0x8000_0000_0000_0000,
    ensures
        parse_i64_spec(s) == Option::<i64>::None,
{
    let body = int_body(s);
    if is_int_literal(s) {
        assert(all_digits(body));
        assert(s.subrange(start, k) =~= body.subrange(0, k - start));
        assert(body.subrange(0, body.len() as int) =~= body);
        lemma_digits_val_mono(body, k - start, body.len() as int);
        assert(digits_val(body) > 0x8000_0000_0000_0000);
        assert(int_val(s) < i64::MIN || int_val(s) > i64::MAX);
    }
}

/// `pre` joined onto the front of the first segment of `ls`; where no
/// segment follows, `pre` itself stands as the final line only if it is
/// nonempty.
pub open spec fn join_pending(pre: Seq<u8>, ls: Seq<Seq<u8>>) -> Seq<Seq<u8>> {
    if ls.len() == 0 {
        if pre.len() == 0 {
            Seq::empty()
        } else {
            seq![pre]
        }
    } else {
        seq![pre + ls[0]] + ls.skip(1)
    }
}

/// A nonempty text has at least one line.
pub proof fn lemma_raw_lines_nonempty(s: Seq<u8>)
    requires
        s.len() > 0,
    ensures
        raw_lines(s).len() >= 1,
{
}

/// Peeling one non-line-feed byte off the front of the text prepends it to
/// the first line.
proof fn lemma_raw_lines_step(t: Seq<u8>)
    requires
        t.len() > 0,
        t[0] != NL,
    ensures
        raw_lines(t) == join_pending(seq![t[0]], raw_lines(t.skip(1))),
{
    let rest = raw_lines(t.skip(1));
    if rest.len() == 0 {
        if t.len() > 1 {
            lemma_raw_lines_nonempty(t.skip(1));
        }
        assert(t =~= seq![t[0]]);
        assert(raw_lines(t) =~~= join_pending(seq![t[0]], rest));
    } else {
        assert(raw_lines(t) =~~= join_pending(seq![t[0]], rest));
    }
}

/// Pending bytes can be moved one at a time.
proof fn lemma_join_pending_push(pre: Seq<u8>, c: u8, ls: Seq<Seq<u8>>)
    ensures
        join_pending(pre.push(c), ls) == join_pending(pre, join_pending(seq![c], ls)),
{
    if ls.len() == 0 {
        assert(pre.push(c) =~= pre + seq![c]);
        assert(join_pending(pre.push(c), ls) =~~= join_pending(pre, join_pending(seq![c], ls)));
    } else {
        assert(pre + (seq![c] + ls[0]) =~= pre.push(c) + ls[0]);
        assert((seq![seq![c] + ls[0]] + ls.skip(1)).skip(1) =~~= ls.skip(1));
        assert(join_pending(pre.push(c), ls) =~~= join_pending(pre, join_pending(seq![c], ls)));
    }
}

/// An empty pending line adds nothing.
proof fn lemma_join_pending_empty(ls: Seq<Seq<u8>>)
    ensures
        join_pending(Seq::empty(), ls) == ls,
{
    if ls.len() == 0 {
        assert(join_pending(Seq::empty(), ls) =~~= ls);
    } else {
        assert(Seq::empty() + ls[0] =~= ls[0]);
        assert(join_pending(Seq::empty(), ls) =~~= ls);
    }
}

/// Split `s` at line feeds, keeping no final empty segment, as
/// [`raw_lines`] has it.
pub fn split_lines<'a>(s: &'a [u8]) -> (r: Vec<&'a [u8]>)
    ensures
        r@.map_values(|l: &[u8]| l@) == raw_lines(s@),
{
    let len: usize = s.len();
    let mut r: Vec<&[u8]> = Vec::new();
    let mut line_start: usize = 0;
    let mut i: usize = 0;
    proof {
        assert(r@.map_values(|l: &[u8]| l@) =~~= Seq::<Seq<u8>>::empty());
        assert(s@.skip(0) =~= s@);
        assert(s@.subrange(0, 0) =~= Seq::<u8>::empty());
        lemma_join_pending_empty(raw_lines(s@));
    }
    while i < len
        invariant
            0 <= line_start <= i <= len,
            len == s@.len(),
            raw_lines(s@) == r@.map_values(|l: &[u8]| l@) + join_pending(
                s@.subrange(line_start as int, i as int),
                raw_lines(s@.skip(i as int)),
            ),
        decreases len - i,
    {
        let ghost cur = s@.subrange(line_start as int, i as int);
        let ghost tail = raw_lines(s@.skip(i as int));
        proof {
            assert(s@.skip(i as int).skip(1) =~= s@.skip(i as int + 1));
            assert(s@.skip(i as int).len() > 0);
            assert(s@.skip(i as int)[0] == s@[i as int]);
        }
        if s[i] == NL {
            let line = slice_subrange(s, line_start, i);
            proof {
                let tail1 = raw_lines(s@.skip(i as int + 1));
                assert(tail == seq![Seq::<u8>::empty()] + tail1);
                assert(cur + Seq::<u8>::empty() =~= cur);
                assert(join_pending(cur, tail) =~~= seq![cur] + tail1);
                lemma_join_pending_empty(tail1);
                assert((r@.push(line)).map_values(|l: &[u8]| l@) =~~= r@.map_values(
                    |l: &[u8]| l@,
                ).push(cur));
                assert(r@.map_values(|l: &[u8]| l@) + (seq![cur] + tail1) =~~= r@.map_values(
                    |l: &[u8]| l@,
                ).push(cur) + tail1);
                assert(s@.subrange(i as int + 1, i as int + 1) =~= Seq::<u8>::empty());
            }
            r.push(line);
            line_start = i + 1;
        } else {
            proof {
                lemma_raw_lines_step(s@.skip(i as int));
                lemma_join_pending_push(cur, s@[i as int], raw_lines(s@.skip(i as int + 1)));
                assert(cur.push(s@[i as int]) =~= s@.subrange(line_start as int, i as int + 1));
            }
        }
        i = i + 1;
    }
    proof {
        assert(s@.skip(len as int) =~= Seq::<u8>::empty());
    }
    if line_start < len {
        let line = slice_subrange(s, line_start, len);
        proof {
            let ghost cur = s@.subrange(line_start as int, len as int);
            assert((r@.push(line)).map_values(|l: &[u8]| l@) =~~= r@.map_values(
                |l: &[u8]| l@,
            ).push(cur));
            assert(r@.map_values(|l: &[u8]| l@) + seq![cur] =~~= r@.map_values(
                |l: &[u8]| l@,
            ).push(cur));
        }
        r.push(line);
    } else {
        proof {
            assert(raw_lines(s@) =~~= r@.map_values(|l: &[u8]| l@));
        }
    }
    r
}

/// `pre` joined onto the front of the first field of `fs`; a field list is
/// never empty.
pub open spec fn join_field(pre: Seq<u8>, fs: Seq<Seq<u8>>) -> Seq<Seq<u8>>
    recommends
        fs.len() >= 1,
{
    seq![pre + fs[0]] + fs.skip(1)
}

/// Peeling one non-comma byte off the front of the line prepends it to the
/// first field.
proof fn lemma_fields_step(t: Seq<u8>)
    requires
        t.len() > 0,
        t[0] != COMMA,
    ensures
        fields_of(t) == join_field(seq![t[0]], fields_of(t.skip(1))),
{
    lemma_fields_nonempty(t.skip(1));
    assert(fields_of(t) =~~= join_field(seq![t[0]], fields_of(t.skip(1))));
}

/// Pending bytes can be moved into the field one at a time.
proof fn lemma_join_field_push(pre: Seq<u8>, c: u8, fs: Seq<Seq<u8>>)
    requires
        fs.len() >= 1,
    ensures
        join_field(pre.push(c), fs) == join_field(pre, join_field(seq![c], fs)),
{
    assert(pre + (seq![c] + fs[0]) =~= pre.push(c) + fs[0]);
    assert((seq![seq![c] + fs[0]] + fs.skip(1)).skip(1) =~~= fs.skip(1));
    assert(join_field(pre.push(c), fs) =~~= join_field(pre, join_field(seq![c], fs)));
}

/// An empty pending field changes nothing.
proof fn lemma_join_field_empty(fs: Seq<Seq<u8>>)
    requires
        fs.len() >= 1,
    ensures
        join_field(Seq::empty(), fs) == fs,
{
    assert(Seq::empty() + fs[0] =~= fs[0]);
    assert(join_field(Seq::empty(), fs) =~~= fs);
}

/// Split `line` at commas, as [`fields_of`] has it: always at least one
/// field, a trailing comma yielding an empty final field.
pub fn split_fields<'a>(line: &'a [u8]) -> (r: Vec<&'a [u8]>)
    ensures
        r@.map_values(|f: &[u8]| f@) == fields_of(line@),
{
    let len: usize = line.len();
    let mut r: Vec<&[u8]> = Vec::new();
    let mut field_start: usize = 0;
    let mut i: usize = 0;
    proof {
        assert(r@.map_values(|f: &[u8]| f@) =~~= Seq::<Seq<u8>>::empty());
        assert(line@.skip(0) =~= line@);
        assert(line@.subrange(0, 0) =~= Seq::<u8>::empty());
        lemma_fields_nonempty(line@);
        lemma_join_field_empty(fields_of(line@));
    }
    while i < len
        invariant
            0 <= field_start <= i <= len,
            len == line@.len(),
            fields_of(line@.skip(i as int)).len() >= 1,
            fields_of(line@) == r@.map_values(|f: &[u8]| f@) + join_field(
                line@.subrange(field_start as int, i as int),
                fields_of(line@.skip(i as int)),
            ),
        decreases len - i,
    {
        let ghost cur = line@.subrange(field_start as int, i as int);
        let ghost tail = fields_of(line@.skip(i as int));
        proof {
            assert(line@.skip(i as int).skip(1) =~= line@.skip(i as int + 1));
            assert(line@.skip(i as int).len() > 0);
            assert(line@.skip(i as int)[0] == line@[i as int]);
            lemma_fields_nonempty(line@.skip(i as int + 1));
        }
        if line[i] == COMMA {
            let field = slice_subrange(line, field_start, i);
            proof {
                let tail1 = fields_of(line@.skip(i as int + 1));
                assert(tail == seq![Seq::<u8>::empty()] + tail1);
                assert(cur + Seq::<u8>::empty() =~= cur);
                assert(join_field(cur, tail) =~~= seq![cur] + tail1);
                lemma_join_field_empty(tail1);
                assert((r@.push(field)).map_values(|f: &[u8]| f@) =~~= r@.map_values(
                    |f: &[u8]| f@,
                ).push(cur));
                assert(r@.map_values(|f: &[u8]| f@) + (seq![cur] + tail1) =~~= r@.map_values(
                    |f: &[u8]| f@,
                ).push(cur) + tail1);
                assert(line@.subrange(i as int + 1, i as int + 1) =~= Seq::<u8>::empty());
            }
            r.push(field);
            field_start = i + 1;
        } else {
            proof {
                lemma_fields_step(line@.skip(i as int));
                lemma_join_field_push(
                    cur,
                    line@[i as int],
                    fields_of(line@.skip(i as int + 1)),
                );
                assert(cur.push(line@[i as int]) =~= line@.subrange(
                    field_start as int,
                    i as int + 1,
                ));
            }
        }
        i = i + 1;
    }
    let field = slice_subrange(line, field_start, len);
    proof {
        let ghost cur = line@.subrange(field_start as int, len as int);
        assert(line@.skip(len as int) =~= Seq::<u8>::empty());
        assert(join_field(cur, fields_of(Seq::<u8>::empty())) =~~= seq![cur]);
        assert((r@.push(field)).map_values(|f: &[u8]| f@) =~~= r@.map_values(
            |f: &[u8]| f@,
        ).push(cur));
        assert(r@.map_values(|f: &[u8]| f@) + seq![cur] =~~= r@.map_values(|f: &[u8]| f@).push(
            cur,
        ));
    }
    r.push(field);
    r
}

/// One trailing carriage return removed, as [`strip_cr`] has it.
pub fn strip_cr_slice<'a>(line: &'a [u8]) -> (r: &'a [u8])
    ensures
        r@ == strip_cr(line@),
{
    let len: usize = line.len();
    if len > 0 && line[len - 1] == CR {
        proof {
            assert(line@.subrange(0, len - 1) =~= line@.drop_last());
        }
        slice_subrange(line, 0, len - 1)
    } else {
        line
    }
}

} // verus!
