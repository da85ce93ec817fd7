//! The record type for one month of usage counters, and the positional
//! parser that reads one report section into it.
//!
//! The parser is deliberately positional and fragile by design: the first
//! non-empty line is the date line, whose first and third space-delimited
//! tokens form the month key, and every later line contributes its leading
//! token when that token reads as a decimal `u32`. Field names in the text
//! are never consulted.

use crate::split::lemma_split_len;
use crate::split::split_at_pat;
use crate::split::split_on;
use crate::split::views_of_strs;
use vstd::prelude::*;

verus! {

/// Mathematical model of a [`MonthlyStat`]: the month key as a character
/// sequence and the four counters as unbounded integers.
pub ghost struct StatModel {
    pub month: Seq<char>,
    pub users: int,
    pub lessons: int,
    pub project_submissions: int,
    pub projects_liked: int,
}

/// One month of aggregated usage counters, keyed by a month string of the
/// form `"<MonthName> <Year>"`.
#[derive(Debug, PartialEq)]
pub struct MonthlyStat {
    pub month: String,
    pub users: u32,
    pub lessons: u32,
    pub project_submissions: u32,
    pub projects_liked: u32,
}

impl View for MonthlyStat {
    type V = StatModel;

    open spec fn view(&self) -> StatModel {
        StatModel {
            month: self.month@,
            users: self.users as int,
            lessons: self.lessons as int,
            project_submissions: self.project_submissions as int,
            projects_liked: self.projects_liked as int,
        }
    }
}

/// The field-wise sum of two records, keeping the first record's month key.
pub open spec fn combined(a: StatModel, b: StatModel) -> StatModel {
    StatModel {
        month: a.month,
        users: a.users + b.users,
        lessons: a.lessons + b.lessons,
        project_submissions: a.project_submissions + b.project_submissions,
        projects_liked: a.projects_liked + b.projects_liked,
    }
}

impl vstd::std_specs::ops::AddSpecImpl for MonthlyStat {
    open spec fn obeys_add_spec() -> bool {
        true
    }

    open spec fn add_req(self, rhs: MonthlyStat) -> bool {
        &&& self.users + rhs.users <= u32::MAX
        &&& self.lessons + rhs.lessons <= u32::MAX
        &&& self.project_submissions + rhs.project_submissions <= u32::MAX
        &&& self.projects_liked + rhs.projects_liked <= u32::MAX
    }

    open spec fn add_spec(self, rhs: MonthlyStat) -> MonthlyStat {
        MonthlyStat {
            month: self.month,
            users: (self.users + rhs.users) as u32,
            lessons: (self.lessons + rhs.lessons) as u32,
            project_submissions: (self.project_submissions + rhs.project_submissions) as u32,
            projects_liked: (self.projects_liked + rhs.projects_liked) as u32,
        }
    }
}

impl std::ops::Add for MonthlyStat {
    type Output = MonthlyStat;

    /// The field-wise sum of two records, keeping the left record's month
    /// key; the sums must fit in `u32`.
    fn add(self, rhs: MonthlyStat) -> (r: MonthlyStat)
        ensures
            r@ == combined(self@, rhs@),
    {
        MonthlyStat {
            month: self.month,
            users: self.users + rhs.users,
            lessons: self.lessons + rhs.lessons,
            project_submissions: self.project_submissions + rhs.project_submissions,
            projects_liked: self.projects_liked + rhs.projects_liked,
        }
    }
}

/// Error raised by the parser: the section lacks a usable date line or
/// fewer than four parseable numeric fields.
#[derive(Clone, Copy, Debug, PartialEq, Eq, Structural)]
pub enum ParseError {
    MalformedSection,
}

/// One trailing carriage return is stripped from a line, so `\r\n` and
/// `\n` line endings read alike.
pub open spec fn strip_cr(l: Seq<char>) -> Seq<char> {
    if l.len() > 0 && l.last() == '\r' {
        l.drop_last()
    } else {
        l
    }
}

/// The lines of a section: the parts between `\n` characters, each with one
/// trailing `\r` stripped.
pub open spec fn spec_lines(s: Seq<char>) -> Seq<Seq<char>> {
    split_at_pat(s, seq!['\n']).map_values(|l: Seq<char>| strip_cr(l))
}

/// The index of the first non-empty line, or -1 when every line is empty.
pub open spec fn date_idx(ls: Seq<Seq<char>>) -> int
    decreases ls.len(),
{
    if ls.len() == 0 {
        -1
    } else if ls.first().len() != 0 {
        0
    } else {
        let r = date_idx(ls.drop_first());
        if r < 0 {
            -1
        } else {
            r + 1
        }
    }
}

/// A decimal digit.
pub open spec fn is_digit(c: char) -> bool {
    '0' as u32 <= c as u32 && c as u32 <= '9' as u32
}

/// The value of a decimal digit.
pub open spec fn digit_val(c: char) -> int {
    c as u32 - '0' as u32
}

pub open spec fn all_digits(ds: Seq<char>) -> bool {
    forall|i: int| 0 <= i < ds.len() ==> is_digit(#[trigger] ds[i])
}

/// The value of a sequence of decimal digits, most significant first.
pub open spec fn dec_val(ds: Seq<char>) -> int
    decreases ds.len(),
{
    if ds.len() == 0 {
        0
    } else {
        10 * dec_val(ds.drop_last()) + digit_val(ds.last())
    }
}

/// The digits of a numeric token: an optional leading `+` sign is allowed,
/// as the standard integer parser allows one.
pub open spec fn digit_body(t: Seq<char>) -> Seq<char> {
    if t.len() > 0 && t[0] == '+' {
        t.drop_first()
    } else {
        t
    }
}

/// What parsing a token as a non-negative 32-bit integer yields: its
/// decimal value when the token is non-empty, all digits after an optional
/// sign, and in range; nothing otherwise.
pub open spec fn parse_u32(t: Seq<char>) -> Option<u32> {
    let b = digit_body(t);
    if b.len() > 0 && all_digits(b) && dec_val(b) <= u32::MAX {
        Some(dec_val(b) as u32)
    } else {
        None
    }
}

/// The space-delimited tokens of a line; consecutive spaces yield empty
/// tokens, as splitting at every single space does.
pub open spec fn spec_tokens(l: Seq<char>) -> Seq<Seq<char>> {
    split_at_pat(l, seq![' '])
}

/// The first space-delimited token of a line.
pub open spec fn first_tok(l: Seq<char>) -> Seq<char> {
    spec_tokens(l).first()
}

/// The numbers collected from a run of lines: each line's leading token
/// that reads as a `u32`, in line order; other lines are skipped.
pub open spec fn nums_of(ls: Seq<Seq<char>>) -> Seq<u32>
    decreases ls.len(),
{
    if ls.len() == 0 {
        Seq::empty()
    } else {
        nums_of(ls.drop_last()) + match parse_u32(first_tok(ls.last())) {
            Some(n) => seq![n],
            None => Seq::empty(),
        }
    }
}

/// What parsing a sequence of lines yields: the month key is built from the
/// first and third tokens of the first non-empty line, and the first four
/// collected numbers become the counters. A missing date line, a date line
/// of fewer than three tokens, or fewer than four numbers is a
/// malformed section.
pub open spec fn parse_from_lines(ls: Seq<Seq<char>>) -> Result<StatModel, ParseError> {
    let d = date_idx(ls);
    if d < 0 {
        Err(ParseError::MalformedSection)
    } else {
        let toks = spec_tokens(ls[d]);
        if toks.len() < 3 {
            Err(ParseError::MalformedSection)
        } else {
            let nums = nums_of(ls.skip(d + 1));
            if nums.len() < 4 {
                Err(ParseError::MalformedSection)
            } else {
                Ok(
                    StatModel {
                        month: toks[0] + seq![' '] + toks[2],
                        users: nums[0] as int,
                        lessons: nums[1] as int,
                        project_submissions: nums[2] as int,
                        projects_liked: nums[3] as int,
                    },
                )
            }
        }
    }
}

/// What parsing one section of report text yields.
pub open spec fn spec_parse(s: Seq<char>) -> Result<StatModel, ParseError> {
    parse_from_lines(spec_lines(s))
}

/// The value of a digit sequence is non-negative.
pub proof fn lemma_dec_val_nonneg(ds: Seq<char>)
    requires
        all_digits(ds),
    ensures
        dec_val(ds) >= 0,
    decreases ds.len(),
{
    if ds.len() > 0 {
        lemma_dec_val_nonneg(ds.drop_last());
    }
}

/// The value of a digit sequence is at least the value of any prefix.
pub proof fn lemma_dec_val_prefix_le(ds: Seq<char>, k: int)
    requires
        all_digits(ds),
        0 <= k <= ds.len(),
    ensures
        dec_val(ds.take(k)) <= dec_val(ds),
    decreases ds.len() - k,
{
    if k == ds.len() {
        assert(ds.take(k) =~= ds);
    } else {
        assert(ds.take(k + 1).drop_last() =~= ds.take(k));
        assert(all_digits(ds.take(k)));
        lemma_dec_val_nonneg(ds.take(k));
        lemma_dec_val_prefix_le(ds, k + 1);
    }
}

/// Where `date_idx` points, the line is non-empty and every earlier line is
/// empty; where it is -1, every line is empty.
pub proof fn lemma_date_idx_props(ls: Seq<Seq<char>>)
    ensures
        date_idx(ls) >= 0 ==> {
            &&& 0 <= date_idx(ls) < ls.len()
            &&& ls[date_idx(ls)].len() != 0
            &&& forall|k: int| 0 <= k < date_idx(ls) ==> (#[trigger] ls[k]).len() == 0
        },
        date_idx(ls) == -1 ==> forall|k: int| 0 <= k < ls.len() ==> (#[trigger] ls[k]).len() == 0,
    decreases ls.len(),
{
    if ls.len() > 0 && ls.first().len() == 0 {
        lemma_date_idx_props(ls.drop_first());
        let r = date_idx(ls.drop_first());
        if r >= 0 {
            assert forall|k: int| 0 <= k < r + 1 implies (#[trigger] ls[k]).len() == 0 by {
                if k > 0 {
                    assert(ls.drop_first()[k - 1] == ls[k]);
                }
            }
        } else {
            assert forall|k: int| 0 <= k < ls.len() implies (#[trigger] ls[k]).len() == 0 by {
                if k > 0 {
                    assert(ls.drop_first()[k - 1] == ls[k]);
                }
            }
        }
    }
}

/// Empty lines at the end of a run contribute no numbers.
proof fn lemma_nums_of_blank_suffix(x: Seq<Seq<char>>, back: Seq<Seq<char>>)
    requires
        forall|k: int| 0 <= k < back.len() ==> (#[trigger] back[k]).len() == 0,
    ensures
        nums_of(x + back) == nums_of(x),
    decreases back.len(),
{
    if back.len() == 0 {
        assert(x + back =~= x);
    } else {
        let pre = back.drop_last();
        assert(forall|k: int| 0 <= k < pre.len() ==> (#[trigger] pre[k]).len() == 0);
        lemma_nums_of_blank_suffix(x, pre);
        assert((x + back).drop_last() =~= x + pre);
        assert((x + back).last() =~= Seq::<char>::empty());
        assert(first_tok(Seq::<char>::empty()) =~= Seq::<char>::empty());
        assert(parse_u32(Seq::<char>::empty()) is None);
        assert(nums_of(x + back) =~= nums_of(x + pre));
    }
}

/// Empty lines before or after a run of lines do not change what the run
/// parses to.
pub proof fn lemma_parse_blank_lines(
    front: Seq<Seq<char>>,
    ls: Seq<Seq<char>>,
    back: Seq<Seq<char>>,
)
    requires
        forall|k: int| 0 <= k < front.len() ==> (#[trigger] front[k]).len() == 0,
        forall|k: int| 0 <= k < back.len() ==> (#[trigger] back[k]).len() == 0,
    ensures
        parse_from_lines(front + ls + back) == parse_from_lines(ls),
{
    let whole = front + ls + back;
    lemma_date_idx_props(ls);
    let d = date_idx(ls);
    if d == -1 {
        assert forall|k: int| 0 <= k < whole.len() implies (#[trigger] whole[k]).len() == 0 by {
            if k < front.len() {
                assert(whole[k] == front[k]);
            } else if k < front.len() + ls.len() {
                assert(whole[k] == ls[k - front.len()]);
            } else {
                assert(whole[k] == back[k - front.len() - ls.len()]);
            }
        }
        lemma_date_idx_none(whole);
    } else {
        let w = front.len() + d;
        assert(whole[w as int] == ls[d]);
        assert forall|k: int| 0 <= k < w implies (#[trigger] whole[k]).len() == 0 by {
            if k < front.len() {
                assert(whole[k] == front[k]);
            } else {
                assert(whole[k] == ls[k - front.len()]);
            }
        }
        lemma_date_idx_at(whole, w as int);
        assert(whole.skip(w + 1) =~= ls.skip(d + 1) + back) by {
            assert forall|i: int|
                0 <= i < whole.len() - w - 1 implies #[trigger] whole.skip(w + 1)[i] == (ls.skip(
                d + 1,
            ) + back)[i] by {
                if i < ls.len() - d - 1 {
                    assert(whole[w + 1 + i] == ls[d + 1 + i]);
                } else {
                    assert(whole[w + 1 + i] == back[i - (ls.len() - d - 1)]);
                }
            }
        }
        lemma_nums_of_blank_suffix(ls.skip(d + 1), back);
    }
}

/// A run of `n` newline characters.
pub open spec fn nl_run(n: nat) -> Seq<char> {
    Seq::new(n, |i: int| '\n')
}

/// A run of `m` newlines splits into `m + 1` empty lines.
proof fn lemma_split_nl_run(m: nat)
    ensures
        split_at_pat(nl_run(m), seq!['\n']) =~= Seq::new(
            m + 1,
            |i: int| Seq::<char>::empty(),
        ),
    decreases m,
{
    let nl = seq!['\n'];
    if m == 0 {
        assert(nl_run(0).len() == 0);
        assert(nl_run(0) =~= Seq::<char>::empty());
        assert(split_at_pat(nl_run(0), nl) == seq![nl_run(0)]);
    } else {
        lemma_split_nl_run((m - 1) as nat);
        assert(crate::split::match_at(nl_run(m), nl, 0)) by {
            assert(nl_run(m).subrange(0, 1) =~= nl);
        }
        assert(nl_run(m).skip(1) =~= nl_run((m - 1) as nat));
        assert(nl_run(m).len() == m);
        assert(split_at_pat(nl_run(m), nl) == seq![Seq::<char>::empty()] + split_at_pat(
            nl_run(m).skip(1),
            nl,
        ));
        assert(split_at_pat(nl_run(m), nl) =~= Seq::new(m + 1, |i: int| Seq::<char>::empty()));
    }
}

/// Newline characters before or after a section's text do not change what
/// it parses to.
pub proof fn lemma_parse_newline_padding(s: Seq<char>, a: nat, b: nat)
    ensures
        spec_parse(nl_run(a) + s + nl_run(b)) == spec_parse(s),
{
    let nl = seq!['\n'];
    let whole = nl_run(a) + s + nl_run(b);
    let empties_a = Seq::new(a as nat, |i: int| Seq::<char>::empty());
    let empties_b = Seq::new(b as nat, |i: int| Seq::<char>::empty());
    let mid = nl_run(a) + s;
    assert(split_at_pat(mid, nl) =~= empties_a + split_at_pat(s, nl)) by {
        if a == 0 {
            assert(mid =~= s);
            assert(empties_a + split_at_pat(s, nl) =~= split_at_pat(s, nl));
        } else {
            assert(mid =~= nl_run((a - 1) as nat) + seq!['\n'] + s);
            crate::split::lemma_split_single_concat(nl_run((a - 1) as nat), s, '\n');
            lemma_split_nl_run((a - 1) as nat);
        }
    }
    assert(split_at_pat(whole, nl) =~= empties_a + split_at_pat(s, nl) + empties_b) by {
        if b == 0 {
            assert(whole =~= mid);
            assert(empties_a + split_at_pat(s, nl) + empties_b =~= empties_a + split_at_pat(
                s,
                nl,
            ));
        } else {
            assert(whole =~= mid + seq!['\n'] + nl_run((b - 1) as nat));
            crate::split::lemma_split_single_concat(mid, nl_run((b - 1) as nat), '\n');
            lemma_split_nl_run((b - 1) as nat);
        }
    }
    assert(spec_lines(whole) =~= empties_a + spec_lines(s) + empties_b) by {
        assert forall|i: int| 0 <= i < spec_lines(whole).len() implies spec_lines(whole)[i] == (
        empties_a + spec_lines(s) + empties_b)[i] by {
            assert(spec_lines(whole)[i] == strip_cr(split_at_pat(whole, nl)[i]));
            if i < a {
                assert(split_at_pat(whole, nl)[i] =~= Seq::<char>::empty());
            } else if i < a + split_at_pat(s, nl).len() {
                assert(split_at_pat(whole, nl)[i] == split_at_pat(s, nl)[i - a]);
                assert(spec_lines(s)[i - a] == strip_cr(split_at_pat(s, nl)[i - a]));
            } else {
                assert(split_at_pat(whole, nl)[i] =~= Seq::<char>::empty());
            }
        }
    }
    lemma_parse_blank_lines(empties_a, spec_lines(s), empties_b);
}

/// `s` with every line break written as `\r\n` instead of `\n`.
pub open spec fn crlf_of(s: Seq<char>) -> Seq<char>
    decreases s.len(),
{
    if s.len() == 0 {
        Seq::empty()
    } else if s.first() == '\n' {
        seq!['\r', '\n'] + crlf_of(s.drop_first())
    } else {
        seq![s.first()] + crlf_of(s.drop_first())
    }
}

/// Prepending a character other than `\r` passes through the carriage
/// return stripping.
proof fn lemma_strip_cr_prepend(c: char, p: Seq<char>)
    requires
        c != '\r',
    ensures
        strip_cr(seq![c] + p) == seq![c] + strip_cr(p),
{
    if p.len() == 0 {
        assert(seq![c] + p =~= seq![c]);
        assert(strip_cr(seq![c]) =~= seq![c] + strip_cr(p));
    } else {
        assert((seq![c] + p).last() == p.last());
        if p.last() == '\r' {
            assert((seq![c] + p).drop_last() =~= seq![c] + p.drop_last());
        }
    }
}

/// A run of text free of carriage returns has the same lines whether its
/// breaks are `\n` or `\r\n`.
pub proof fn lemma_lines_crlf(s: Seq<char>)
    requires
        forall|i: int| 0 <= i < s.len() ==> s[i] != '\r',
    ensures
        spec_lines(crlf_of(s)) == spec_lines(s),
    decreases s.len(),
{
    let nl = seq!['\n'];
    let c = crlf_of(s);
    if s.len() == 0 {
        assert(c =~= s);
    } else {
        let t = s.drop_first();
        assert forall|i: int| 0 <= i < t.len() implies t[i] != '\r' by {
            assert(t[i] == s[i + 1]);
        }
        lemma_lines_crlf(t);
        let ct = crlf_of(t);
        lemma_split_len(ct, nl);
        lemma_split_len(t, nl);
        if s.first() == '\n' {
            assert(c == seq!['\r', '\n'] + ct);
            assert(crate::split::match_at(c, nl, 1)) by {
                assert(c.subrange(1, 2) =~= nl);
            }
            assert(!crate::split::match_at(c, nl, 0)) by {
                if crate::split::match_at(c, nl, 0) {
                    assert(c.subrange(0, 1)[0] == c[0]);
                    assert(nl[0] == '\n');
                }
            }
            crate::split::lemma_split_first_match(c, nl, 1);
            assert(c.take(1) =~= seq!['\r']);
            assert(c.skip(2) =~= ct);
            assert(crate::split::match_at(s, nl, 0)) by {
                assert(s.subrange(0, 1) =~= nl);
            }
            crate::split::lemma_split_first_match(s, nl, 0);
            assert(s.take(0) =~= Seq::<char>::empty());
            assert(s.skip(1) =~= t);
            assert(strip_cr(seq!['\r']) =~= Seq::<char>::empty());
            assert(strip_cr(Seq::<char>::empty()) =~= Seq::<char>::empty());
            assert(spec_lines(c) =~= spec_lines(s)) by {
                assert(split_at_pat(c, nl) == seq![seq!['\r']] + split_at_pat(ct, nl));
                assert(split_at_pat(s, nl) == seq![Seq::<char>::empty()] + split_at_pat(t, nl));
                assert(split_at_pat(ct, nl).len() == split_at_pat(t, nl).len()) by {
                    assert(spec_lines(ct).len() == split_at_pat(ct, nl).len());
                    assert(spec_lines(t).len() == split_at_pat(t, nl).len());
                }
                assert forall|i: int| 0 <= i < spec_lines(c).len() implies spec_lines(c)[i]
                    == spec_lines(s)[i] by {
                    assert(spec_lines(c)[i] == strip_cr(split_at_pat(c, nl)[i]));
                    assert(spec_lines(s)[i] == strip_cr(split_at_pat(s, nl)[i]));
                    if i > 0 {
                        assert(split_at_pat(c, nl)[i] == split_at_pat(ct, nl)[i - 1]);
                        assert(split_at_pat(s, nl)[i] == split_at_pat(t, nl)[i - 1]);
                        assert(spec_lines(ct)[i - 1] == strip_cr(split_at_pat(ct, nl)[i - 1]));
                        assert(spec_lines(t)[i - 1] == strip_cr(split_at_pat(t, nl)[i - 1]));
                        assert(spec_lines(ct)[i - 1] == spec_lines(t)[i - 1]);
                    }
                }
            }
        } else {
            let ch = s.first();
            assert(c == seq![ch] + ct);
            assert(c.len() >= 1);
            assert(!crate::split::match_at(c, nl, 0)) by {
                if crate::split::match_at(c, nl, 0) {
                    assert(c.subrange(0, 1)[0] == c[0]);
                    assert(nl[0] == '\n');
                }
            }
            assert(!crate::split::match_at(s, nl, 0)) by {
                if crate::split::match_at(s, nl, 0) {
                    assert(s.subrange(0, 1)[0] == s[0]);
                    assert(nl[0] == '\n');
                }
            }
            assert(c.drop_first() =~= ct);
            assert(s.drop_first() =~= t);
            let rc = split_at_pat(ct, nl);
            let rs = split_at_pat(t, nl);
            assert(split_at_pat(c, nl) == seq![seq![ch] + rc.first()] + rc.drop_first());
            assert(split_at_pat(s, nl) == seq![seq![ch] + rs.first()] + rs.drop_first());
            assert(strip_cr(rc.first()) == strip_cr(rs.first())) by {
                assert(spec_lines(ct)[0] == strip_cr(rc[0]));
                assert(spec_lines(t)[0] == strip_cr(rs[0]));
            }
            lemma_strip_cr_prepend(ch, rc.first());
            lemma_strip_cr_prepend(ch, rs.first());
            assert(spec_lines(c) =~= spec_lines(s)) by {
                assert(rc.len() == rs.len()) by {
                    assert(spec_lines(ct).len() == rc.len());
                    assert(spec_lines(t).len() == rs.len());
                }
                assert forall|i: int| 0 <= i < spec_lines(c).len() implies spec_lines(c)[i]
                    == spec_lines(s)[i] by {
                    assert(spec_lines(c)[i] == strip_cr(split_at_pat(c, nl)[i]));
                    assert(spec_lines(s)[i] == strip_cr(split_at_pat(s, nl)[i]));
                    if i == 0 {
                        assert(split_at_pat(c, nl)[0] == seq![ch] + rc.first());
                        assert(split_at_pat(s, nl)[0] == seq![ch] + rs.first());
                    } else {
                        assert(split_at_pat(c, nl)[i] == rc[i]);
                        assert(split_at_pat(s, nl)[i] == rs[i]);
                        assert(spec_lines(ct)[i] == strip_cr(rc[i]));
                        assert(spec_lines(t)[i] == strip_cr(rs[i]));
                        assert(spec_lines(ct)[i] == spec_lines(t)[i]);
                    }
                }
            }
        }
    }
}

/// A section free of carriage returns parses identically when every line
/// break is written `\r\n` instead of `\n`.
pub proof fn lemma_parse_crlf(s: Seq<char>)
    requires
        forall|i: int| 0 <= i < s.len() ==> s[i] != '\r',
    ensures
        spec_parse(crlf_of(s)) == spec_parse(s),
{
    lemma_lines_crlf(s);
}

/// The same content, prefixed and suffixed with blank lines and written
/// with `\r\n` line endings throughout, parses identically.
pub proof fn lemma_parse_tolerates_whitespace(s: Seq<char>, a: nat, b: nat)
    requires
        forall|i: int| 0 <= i < s.len() ==> s[i] != '\r',
    ensures
        spec_parse(crlf_of(nl_run(a) + s + nl_run(b))) == spec_parse(s),
{
    let padded = nl_run(a) + s + nl_run(b);
    assert forall|i: int| 0 <= i < padded.len() implies padded[i] != '\r' by {
        if i < a {
            assert(padded[i] == '\n');
        } else if i < a + s.len() {
            assert(padded[i] == s[i - a]);
        } else {
            assert(padded[i] == '\n');
        }
    }
    lemma_parse_crlf(padded);
    lemma_parse_newline_padding(s, a, b);
}

/// Parse a token as a non-negative 32-bit decimal integer, allowing one
/// leading `+` sign, exactly as [`parse_u32`] describes.
fn parse_number(t: &str) -> (r: Option<u32>)
    ensures
        r == parse_u32(t@),
{
    let n = t.unicode_len();
    let mut i: usize = 0;
    if n > 0 && t.get_char(0) == '+' {
        i = 1;
    }
    let ghost b = digit_body(t@);
    proof {
        assert(b =~= t@.subrange(i as int, n as int));
    }
    if i >= n {
        return None;
    }
    let mut acc: u64 = 0;
    let mut j: usize = i;
    while j < n
        invariant
            t@.len() == n,
            i <= j <= n,
            i < n,
            b == digit_body(t@),
            b =~= t@.subrange(i as int, n as int),
            acc == dec_val(t@.subrange(i as int, j as int)),
            acc <= u32::MAX,
            forall|k: int| i <= k < j ==> is_digit(#[trigger] t@[k]),
        decreases n - j,
    {
        let c = t.get_char(j);
        let v = c as u32;
        if v < '0' as u32 || v > '9' as u32 {
            proof {
                assert(b[j - i] == t@[j as int]);
                assert(!all_digits(b));
            }
            return None;
        }
        let d = v - '0' as u32;
        proof {
            assert(t@.subrange(i as int, j + 1).drop_last() =~= t@.subrange(
                i as int,
                j as int,
            ));
            assert(t@.subrange(i as int, j + 1).last() == t@[j as int]);
        }
        acc = acc * 10 + d as u64;
        if acc > u32::MAX as u64 {
            proof {
                if all_digits(b) {
                    assert(b.take(j + 1 - i) =~= t@.subrange(i as int, j + 1));
                    lemma_dec_val_prefix_le(b, j + 1 - i);
                }
            }
            return None;
        }
        j = j + 1;
    }
    proof {
        assert(forall|k: int| 0 <= k < b.len() ==> is_digit(#[trigger] b[k]));
    }
    Some(acc as u32)
}

/// Split a section into its lines: parts between `\n` characters, one
/// trailing `\r` stripped from each.
pub fn split_lines(s: &str) -> (r: Vec<&str>)
    ensures
        views_of_strs(r@) == spec_lines(s@),
{
    proof {
        reveal_strlit("\n");
        assert("\n"@ =~= seq!['\n']);
    }
    let parts = split_on(s, "\n");
    let mut out: Vec<&str> = Vec::new();
    let n = parts.len();
    let mut i: usize = 0;
    while i < n
        invariant
            n == parts@.len(),
            views_of_strs(parts@) == split_at_pat(s@, seq!['\n']),
            i <= n,
            out@.len() == i,
            forall|k: int| 0 <= k < i ==> (#[trigger] out@[k])@ == spec_lines(s@)[k],
        decreases n - i,
    {
        let p = parts[i];
        let m = p.unicode_len();
        if m > 0 && p.get_char(m - 1) == '\r' {
            let q = p.substring_char(0, m - 1);
            proof {
                assert(q@ =~= strip_cr(p@));
            }
            out.push(q);
        } else {
            out.push(p);
        }
        i = i + 1;
    }
    proof {
        assert(views_of_strs(out@) =~= spec_lines(s@));
    }
    out
}

/// The index of the first non-empty line, if any line is non-empty.
fn first_nonempty_index(lines: &Vec<&str>) -> (r: Option<usize>)
    ensures
        match r {
            Some(d) => {
                &&& (d as int) < lines@.len()
                &&& lines@[d as int]@.len() != 0
                &&& forall|k: int| 0 <= k < d ==> (#[trigger] lines@[k])@.len() == 0
            },
            None => forall|k: int| 0 <= k < lines@.len() ==> (#[trigger] lines@[k])@.len() == 0,
        },
{
    let mut d: usize = 0;
    while d < lines.len()
        invariant
            d <= lines@.len(),
            forall|k: int| 0 <= k < d ==> (#[trigger] lines@[k])@.len() == 0,
        decreases lines@.len() - d,
    {
        if !lines[d].is_empty() {
            return Some(d);
        }
        d = d + 1;
    }
    None
}

/// A line run in which the line at `d` is the first non-empty one has its
/// date index there.
proof fn lemma_date_idx_at(ls: Seq<Seq<char>>, d: int)
    requires
        0 <= d < ls.len(),
        ls[d].len() != 0,
        forall|k: int| 0 <= k < d ==> (#[trigger] ls[k]).len() == 0,
    ensures
        date_idx(ls) == d,
    decreases d,
{
    if d > 0 {
        lemma_date_idx_at(ls.drop_first(), d - 1);
    }
}

/// A line run of only empty lines has no date line.
proof fn lemma_date_idx_none(ls: Seq<Seq<char>>)
    requires
        forall|k: int| 0 <= k < ls.len() ==> (#[trigger] ls[k]).len() == 0,
    ensures
        date_idx(ls) == -1,
    decreases ls.len(),
{
    if ls.len() > 0 {
        lemma_date_idx_none(ls.drop_first());
    }
}

impl MonthlyStat {
    /// Parse one report section, exactly as [`spec_parse`] describes: the
    /// month key comes from the first and third tokens of the first
    /// non-empty line, and the first four leading integer tokens of the
    /// later lines become the counters, in order of appearance. Any section
    /// without a usable date line or with fewer than four such numbers is
    /// rejected as malformed.
    pub fn parse(text: &str) -> (r: Result<MonthlyStat, ParseError>)
        ensures
            match r {
                Ok(stat) => spec_parse(text@) == Ok::<StatModel, ParseError>(stat@),
                Err(e) => spec_parse(text@) == Err::<StatModel, ParseError>(e),
            },
    {
        proof {
            reveal_strlit(" ");
            assert(" "@ =~= seq![' ']);
        }
        let lines = split_lines(text);
        let ghost ls = spec_lines(text@);
        let n = lines.len();
        let d = match first_nonempty_index(&lines) {
            Some(d) => d,
            None => {
                proof {
                    lemma_date_idx_none(ls);
                }
                return Err(ParseError::MalformedSection);
            },
        };
        proof {
            lemma_date_idx_at(ls, d as int);
        }
        let toks = split_on(lines[d], " ");
        if toks.len() < 3 {
            return Err(ParseError::MalformedSection);
        }
        let month = String::from_str(toks[0]).concat(" ").concat(toks[2]);
        let ghost tail = ls.skip(d + 1);
        let mut nums: Vec<u32> = Vec::new();
        let mut i: usize = d + 1;
        while i < n
            invariant
                n == ls.len(),
                views_of_strs(lines@) == ls,
                lines@.len() == n,
                d < i <= n,
                tail == ls.skip(d + 1),
                nums@ == nums_of(tail.take(i - d - 1)),
            decreases n - i,
        {
            proof {
                reveal_strlit(" ");
                assert(" "@ =~= seq![' ']);
                lemma_split_len(lines@[i as int]@, seq![' ']);
            }
            let ltoks = split_on(lines[i], " ");
            let t0 = ltoks[0];
            proof {
                assert(t0@ == first_tok(ls[i as int]));
                assert(tail.take(i - d).drop_last() =~= tail.take(i - d - 1));
                assert(tail.take(i - d).last() == ls[i as int]);
            }
            match parse_number(t0) {
                Some(v) => nums.push(v),
                None => (),
            }
            i = i + 1;
        }
        proof {
            assert(tail.take(n - d - 1) =~= tail);
        }
        if nums.len() < 4 {
            return Err(ParseError::MalformedSection);
        }
        let users = nums[0];
        let lessons = nums[1];
        let project_submissions = nums[2];
        let projects_liked = nums[3];
        let stat = MonthlyStat { month, users, lessons, project_submissions, projects_liked };
        proof {
            assert(stat@.month =~= spec_tokens(ls[d as int])[0] + seq![' '] + spec_tokens(
                ls[d as int],
            )[2]);
        }
        Ok(stat)
    }
}

} // verus!
