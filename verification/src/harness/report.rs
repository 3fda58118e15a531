//! Judging a scenario from the result lines that its agents wrote, one per
//! agent: "AGENTE <id> -> ENVIOS: <sends> - RECEBIDOS: <receives>".
use vstd::prelude::*;
use crate::harness::expected::{can_check_count, check_count, count_accepted, count_check_fits};
use crate::text::{decimal, push_decimal};

verus! {

/// A character that `char::is_whitespace` accepts: Unicode's White_Space.
pub open spec fn is_white(c: char) -> bool {
    let v = c as u32;
    ||| 9 <= v <= 13
    ||| v == 32
    ||| v == 0x85
    ||| v == 0xa0
    ||| v == 0x1680
    ||| 0x2000 <= v <= 0x200a
    ||| v == 0x2028
    ||| v == 0x2029
    ||| v == 0x202f
    ||| v == 0x205f
    ||| v == 0x3000
}

fn is_white_char(c: char) -> (b: bool)
    ensures
        b == is_white(c),
{
    let v = c as u32;
    (9 <= v && v <= 13) || v == 32 || v == 0x85 || v == 0xa0 || v == 0x1680 || (0x2000 <= v && v
        <= 0x200a) || v == 0x2028 || v == 0x2029 || v == 0x202f || v == 0x205f || v == 0x3000
}

/// The words of a text: its longest runs of characters that are not white.
pub open spec fn words(s: Seq<char>) -> Seq<Seq<char>>
    decreases s.len(),
{
    if s.len() == 0 {
        Seq::empty()
    } else {
        let w = words(s.drop_last());
        let c = s.last();
        if is_white(c) {
            w
        } else if s.len() == 1 || is_white(s[s.len() - 2]) {
            w.push(seq![c])
        } else {
            w.update(w.len() - 1, w.last().push(c))
        }
    }
}

/// A text that ends inside a word has at least one word.
proof fn lemma_words_nonempty(s: Seq<char>)
    requires
        s.len() > 0,
        !is_white(s.last()),
    ensures
        words(s).len() > 0,
    decreases s.len(),
{
    if s.len() > 1 && !is_white(s[s.len() - 2]) {
        lemma_words_nonempty(s.drop_last());
    }
}

/// The views of a list of character vectors.
pub open spec fn char_views(v: Seq<Vec<char>>) -> Seq<Seq<char>> {
    v.map_values(|w: Vec<char>| w@)
}

/// The views of a list of strings.
pub open spec fn string_views(v: Seq<String>) -> Seq<Seq<char>> {
    v.map_values(|s: String| s@)
}

/// Splits a text at white space, as `split_whitespace` does.
fn split_words(s: &str) -> (ws: Vec<Vec<char>>)
    ensures
        char_views(ws@) == words(s@),
{
    let n = s.unicode_len();
    let mut ws: Vec<Vec<char>> = Vec::new();
    let mut i: usize = 0;
    while i < n
        invariant
            n == s@.len(),
            i <= n,
            char_views(ws@) == words(s@.subrange(0, i as int)),
        decreases n - i,
    {
        let c = s.get_char(i);
        let ghost prefix = s@.subrange(0, i as int);
        proof {
            assert(s@.subrange(0, i + 1).drop_last() =~= prefix);
        }
        if !is_white_char(c) {
            let starts = i == 0 || is_white_char(s.get_char(i - 1));
            if starts {
                let mut w: Vec<char> = Vec::new();
                w.push(c);
                ws.push(w);
                proof {
                    assert(char_views(ws@) =~= words(prefix).push(seq![c]));
                }
            } else {
                proof {
                    assert(prefix.last() == s@[i - 1]);
                    lemma_words_nonempty(prefix);
                }
                let mut w = ws.pop().unwrap();
                w.push(c);
                ws.push(w);
                proof {
                    let old_w = words(prefix);
                    assert(char_views(ws@) =~= old_w.update(old_w.len() - 1, old_w.last().push(c)));
                }
            }
        }
        i = i + 1;
    }
    proof {
        assert(s@.subrange(0, n as int) =~= s@);
    }
    ws
}

pub open spec fn is_digit(c: char) -> bool {
    48 <= c as u32 <= 57
}

/// The number that a run of decimal digits denotes.
pub open spec fn digits_value(s: Seq<char>) -> int
    decreases s.len(),
{
    if s.len() == 0 {
        0
    } else {
        digits_value(s.drop_last()) * 10 + (s.last() as u32 - 48)
    }
}

pub open spec fn all_digits(s: Seq<char>) -> bool {
    forall|i: int| 0 <= i < s.len() ==> is_digit(#[trigger] s[i])
}

/// The digits of an unsigned number's text: a leading `+` is dropped.
pub open spec fn unsigned_digits(s: Seq<char>) -> Seq<char> {
    if s.len() > 0 && s[0] == '+' {
        s.drop_first()
    } else {
        s
    }
}

/// The `usize` that a text denotes, as `str::parse` reads it: an optional `+`,
/// then at least one decimal digit, and a value that fits.
pub open spec fn usize_text(s: Seq<char>) -> Option<usize> {
    let d = unsigned_digits(s);
    if d.len() > 0 && all_digits(d) && digits_value(d) <= usize::MAX {
        Some(digits_value(d) as usize)
    } else {
        None
    }
}

/// A prefix of a run of digits denotes no more than the whole run.
proof fn lemma_digits_prefix(s: Seq<char>, k: int)
    requires
        all_digits(s),
        0 <= k <= s.len(),
    ensures
        0 <= digits_value(s.subrange(0, k)) <= digits_value(s),
    decreases s.len() - k,
{
    if k < s.len() {
        lemma_digits_prefix(s, k + 1);
        let t = s.subrange(0, k + 1);
        assert(t.drop_last() =~= s.subrange(0, k));
        assert(is_digit(t.last()));
    } else {
        assert(s.subrange(0, k) =~= s);
        lemma_digits_nonnegative(s);
    }
}

proof fn lemma_digits_nonnegative(s: Seq<char>)
    requires
        all_digits(s),
    ensures
        digits_value(s) >= 0,
    decreases s.len(),
{
    if s.len() > 0 {
        assert(is_digit(s.last()));
        lemma_digits_nonnegative(s.drop_last());
    }
}

/// Reads a `usize` as `str::parse` does.
fn parse_usize(w: &Vec<char>) -> (r: Option<usize>)
    ensures
        r == usize_text(w@),
{
    let n = w.len();
    let start: usize = if n > 0 && w[0] == '+' { 1 } else { 0 };
    let ghost d = unsigned_digits(w@);
    proof {
        assert(d =~= w@.subrange(start as int, n as int));
    }
    if start >= n {
        return None;
    }
    let mut v: u128 = 0;
    let mut i: usize = start;
    while i < n
        invariant
            start <= i <= n,
            n == w@.len(),
            d == w@.subrange(start as int, n as int),
            d == unsigned_digits(w@),
            all_digits(w@.subrange(start as int, i as int)),
            v == digits_value(w@.subrange(start as int, i as int)),
            v <= usize::MAX,
        decreases n - i,
    {
        let c = w[i];
        let code = c as u32;
        let ghost p = w@.subrange(start as int, i + 1);
        proof {
            assert(p.drop_last() =~= w@.subrange(start as int, i as int));
            assert(p.last() == c);
        }
        if !(48 <= code && code <= 57) {
            proof {
                assert(d[i - start] == c);
                assert(!is_digit(d[i - start]));
                assert(!all_digits(d));
            }
            return None;
        }
        v = v * 10 + (code - 48) as u128;
        proof {
            assert(v == digits_value(p));
        }
        if v > usize::MAX as u128 {
            proof {
                if all_digits(d) {
                    assert(p =~= d.subrange(0, i + 1 - start));
                    lemma_digits_prefix(d, i + 1 - start);
                }
            }
            return None;
        }
        i = i + 1;
    }
    proof {
        assert(w@.subrange(start as int, n as int) =~= d);
    }
    Some(v as usize)
}

/// What one result line says of an agent.
#[derive(Clone, Copy, Debug, PartialEq, Eq, Structural)]
pub struct ResultLine {
    pub agent: usize,
    pub sends: usize,
    pub receivs: usize,
}

/// The result that a line holds: its second word names the agent, its fifth
/// the messages sent and its eighth the messages received.
pub open spec fn result_of(line: Seq<char>) -> Option<ResultLine> {
    let w = words(line);
    if w.len() >= 8 && usize_text(w[1]) is Some && usize_text(w[4]) is Some && usize_text(
        w[7],
    ) is Some {
        Some(
            ResultLine {
                agent: usize_text(w[1])->0,
                sends: usize_text(w[4])->0,
                receivs: usize_text(w[7])->0,
            },
        )
    } else {
        None
    }
}

/// Reads a result line; `None` where a word is missing or not a number.
pub fn parse_result_line(line: &str) -> (r: Option<ResultLine>)
    ensures
        r == result_of(line@),
{
    let ws = split_words(line);
    proof {
        assert(ws@.len() == words(line@).len());
    }
    if ws.len() < 8 {
        return None;
    }
    proof {
        assert(ws@[1]@ == words(line@)[1]);
        assert(ws@[4]@ == words(line@)[4]);
        assert(ws@[7]@ == words(line@)[7]);
    }
    let agent = parse_usize(&ws[1]);
    let sends = parse_usize(&ws[4]);
    let receivs = parse_usize(&ws[7]);
    match (agent, sends, receivs) {
        (Some(agent), Some(sends), Some(receivs)) => Some(ResultLine { agent, sends, receivs }),
        _ => None,
    }
}

/// The line that says an agent was expected to die.
pub open spec fn death_line(idx: nat) -> Seq<char> {
    "Agente "@ + decimal(idx) + " deveria morrer\n"@
}

/// The death lines of the first `k` agents.
pub open spec fn death_lines(exp_d: Seq<usize>, k: int) -> Seq<char>
    decreases k,
{
    if k <= 0 {
        Seq::empty()
    } else {
        death_lines(exp_d, k - 1) + if exp_d[k - 1] != 0 {
            death_line((k - 1) as nat)
        } else {
            Seq::empty()
        }
    }
}

/// How many of the first `k` agents are expected to die.
pub open spec fn death_count(exp_d: Seq<usize>, k: int) -> nat
    decreases k,
{
    if k <= 0 {
        0
    } else {
        death_count(exp_d, k - 1) + if exp_d[k - 1] != 0 {
            1nat
        } else {
            0nat
        }
    }
}

/// The line that reports a wrong count of sends (`what` "Enviados") or
/// receives ("Recebidos").
pub open spec fn count_error(what: Seq<char>, idx: nat, count: nat, expected: nat, deaths: nat) -> Seq<char> {
    "Agente "@ + decimal(idx) + ": "@ + what + ": "@ + decimal(count) + " - Esperados: "@ + decimal(expected)
        + ", com "@ + decimal(deaths) + " mortes\n"@
}

/// Where the judging of a scenario stands.
pub struct Judgement {
    /// The error text of each agent.
    pub errors: Seq<Seq<char>>,
    pub has_errors: bool,
    /// The result line of each agent.
    pub results: Seq<Seq<char>>,
    pub sends: int,
    pub receivs: int,
    pub exp_sends: int,
    pub exp_receivs: int,
}

/// The judgement before any result line: every agent expected to die is
/// reported in the first error text.
pub open spec fn initial_judgement(n: nat, exp_d: Seq<usize>) -> Judgement {
    Judgement {
        errors: Seq::new(n, |i: int| if i == 0 { death_lines(exp_d, n as int) } else { Seq::empty() }),
        has_errors: false,
        results: Seq::new(n, |i: int| Seq::<char>::empty()),
        sends: 0,
        receivs: 0,
        exp_sends: 0,
        exp_receivs: 0,
    }
}

/// The judgement after the result line `line`, which says `r`.
pub open spec fn judge_line(
    j: Judgement,
    line: Seq<char>,
    r: ResultLine,
    exp_s: Seq<usize>,
    exp_r: Seq<usize>,
    deaths: nat,
) -> Judgement {
    let idx = r.agent as int;
    let send_bad = !count_accepted(r.sends as int, exp_s[idx] as int, deaths as int);
    let recv_bad = !count_accepted(r.receivs as int, exp_r[idx] as int, deaths as int);
    let e1 = if send_bad {
        j.errors[idx] + count_error("Enviados"@, idx as nat, r.sends as nat, exp_s[idx] as nat, deaths)
    } else {
        j.errors[idx]
    };
    let e2 = if recv_bad {
        e1 + count_error("Recebidos"@, idx as nat, r.receivs as nat, exp_r[idx] as nat, deaths)
    } else {
        e1
    };
    Judgement {
        errors: j.errors.update(idx, e2),
        has_errors: j.has_errors || send_bad || recv_bad,
        results: j.results.update(idx, line),
        sends: j.sends + r.sends,
        receivs: j.receivs + r.receivs,
        exp_sends: j.exp_sends + exp_s[idx],
        exp_receivs: j.exp_receivs + exp_r[idx],
    }
}

/// The totals of a judgement fit in `usize`.
pub open spec fn totals_fit(j: Judgement) -> bool {
    &&& j.sends <= usize::MAX
    &&& j.receivs <= usize::MAX
    &&& j.exp_sends <= usize::MAX
    &&& j.exp_receivs <= usize::MAX
}

/// The comparisons of a line's counts with the expected ones stay within `usize`.
pub open spec fn comparisons_fit(r: ResultLine, exp_s: Seq<usize>, exp_r: Seq<usize>, deaths: nat) -> bool {
    &&& count_check_fits(r.sends as int, exp_s[r.agent as int] as int, deaths as int)
    &&& count_check_fits(r.receivs as int, exp_r[r.agent as int] as int, deaths as int)
}

/// The judgement of a scenario of `n` agents after its result lines; `None`
/// where a line cannot be read, names no agent of the scenario, or a
/// comparison or a total leaves `usize`.
pub open spec fn judge_lines(
    lines: Seq<Seq<char>>,
    n: nat,
    exp_s: Seq<usize>,
    exp_r: Seq<usize>,
    exp_d: Seq<usize>,
) -> Option<Judgement>
    decreases lines.len(),
{
    if lines.len() == 0 {
        Some(initial_judgement(n, exp_d))
    } else {
        match judge_lines(lines.drop_last(), n, exp_s, exp_r, exp_d) {
            None => None,
            Some(j) => match result_of(lines.last()) {
                None => None,
                Some(r) => {
                    let deaths = death_count(exp_d, n as int);
                    let next = judge_line(j, lines.last(), r, exp_s, exp_r, deaths);
                    if r.agent < n && comparisons_fit(r, exp_s, exp_r, deaths) && totals_fit(next) {
                        Some(next)
                    } else {
                        None
                    }
                },
            },
        }
    }
}

/// A result line whose count of sends or of receives is neither the expected
/// one nor within `deaths` of it.
pub open spec fn line_is_wrong(line: Seq<char>, exp_s: Seq<usize>, exp_r: Seq<usize>, deaths: nat) -> bool {
    match result_of(line) {
        Some(r) => {
            ||| !count_accepted(r.sends as int, exp_s[r.agent as int] as int, deaths as int)
            ||| !count_accepted(r.receivs as int, exp_r[r.agent as int] as int, deaths as int)
        },
        None => false,
    }
}

/// Law: a scenario whose result lines can all be judged has errors exactly
/// when one of its lines reports a wrong count of sends or receives.
pub proof fn lemma_errors_iff_wrong_line(
    lines: Seq<Seq<char>>,
    n: nat,
    exp_s: Seq<usize>,
    exp_r: Seq<usize>,
    exp_d: Seq<usize>,
)
    requires
        judge_lines(lines, n, exp_s, exp_r, exp_d) is Some,
    ensures
        judge_lines(lines, n, exp_s, exp_r, exp_d).unwrap().has_errors <==> exists|i: int|
            0 <= i < lines.len() && #[trigger] line_is_wrong(lines[i], exp_s, exp_r, death_count(exp_d, n as int)),
    decreases lines.len(),
{
    let deaths = death_count(exp_d, n as int);
    if lines.len() > 0 {
        let pre = lines.drop_last();
        lemma_errors_iff_wrong_line(pre, n, exp_s, exp_r, exp_d);
        let last = lines[lines.len() - 1];
        let j = judge_lines(lines, n, exp_s, exp_r, exp_d).unwrap();
        let jp = judge_lines(pre, n, exp_s, exp_r, exp_d).unwrap();
        assert(j.has_errors == (jp.has_errors || line_is_wrong(last, exp_s, exp_r, deaths)));
        if j.has_errors {
            if jp.has_errors {
                let i = choose|i: int| 0 <= i < pre.len() && #[trigger] line_is_wrong(pre[i], exp_s, exp_r, deaths);
                assert(lines[i] == pre[i]);
            }
        } else {
            assert forall|i: int| 0 <= i < lines.len() implies !#[trigger] line_is_wrong(lines[i], exp_s, exp_r, deaths) by {
                if i < pre.len() {
                    assert(lines[i] == pre[i]);
                }
            }
        }
    }
}

/// Texts one after the other.
pub open spec fn joined(ts: Seq<Seq<char>>) -> Seq<char>
    decreases ts.len(),
{
    if ts.len() == 0 {
        Seq::empty()
    } else {
        joined(ts.drop_last()) + ts.last()
    }
}

/// The report of a judged scenario.
pub open spec fn report_text(test_id: nat, test_name: Seq<char>, j: Judgement) -> Seq<char> {
    let errors = joined(j.errors);
    let errors = if errors.len() > 0 { errors + "----------\n"@ } else { errors };
    "\n----------\nTeste "@ + decimal(test_id) + ": "@ + test_name + "\n----------\n"@ + errors
        + "Total de Mensagens Enviadas: "@ + decimal(j.sends as nat) + "/"@ + decimal(j.exp_sends as nat)
        + "\nTotal de Mensagens Recebidas: "@ + decimal(j.receivs as nat) + "/"@ + decimal(
        j.exp_receivs as nat,
    ) + "\n"@
}

/// What judging a scenario gives: the result lines in agent order, whether
/// any count was wrong, and the report.
pub struct TestOutcome {
    pub results: String,
    pub has_errors: bool,
    pub report: String,
}

/// Appends texts one after the other.
fn join_strings(out: &mut String, ts: &Vec<String>)
    ensures
        final(out)@ == old(out)@ + joined(string_views(ts@)),
{
    let mut i: usize = 0;
    while i < ts.len()
        invariant
            i <= ts@.len(),
            out@ == old(out)@ + joined(string_views(ts@.subrange(0, i as int))),
        decreases ts@.len() - i,
    {
        proof {
            assert(string_views(ts@.subrange(0, i + 1)).drop_last() =~= string_views(ts@.subrange(0, i as int)));
        }
        out.append(ts[i].as_str());
        i = i + 1;
    }
    proof {
        assert(ts@.subrange(0, ts@.len() as int) =~= ts@);
    }
}

/// Appends the line of a wrong count.
fn push_count_error(out: &mut String, what: &str, idx: usize, count: usize, expected: usize, deaths: usize)
    ensures
        final(out)@ == old(out)@ + count_error(what@, idx as nat, count as nat, expected as nat, deaths as nat),
{
    out.append("Agente ");
    push_decimal(out, idx as u64);
    out.append(": ");
    out.append(what);
    out.append(": ");
    push_decimal(out, count as u64);
    out.append(" - Esperados: ");
    push_decimal(out, expected as u64);
    out.append(", com ");
    push_decimal(out, deaths as u64);
    out.append(" mortes\n");
    proof {
        assert(out@ =~= old(out)@ + count_error(what@, idx as nat, count as nat, expected as nat, deaths as nat));
    }
}

/// Judges a scenario of `agent_num` agents from the lines of its result file
/// and the expected sends, receives and deaths of each agent. `None` where a
/// line cannot be read, names no agent of the scenario, or a comparison or a
/// total leaves `usize`.
pub fn calculate_test(
    lines: &Vec<String>,
    agent_num: usize,
    test_name: &str,
    test_id: usize,
    expected: (Vec<usize>, Vec<usize>, Vec<usize>),
) -> (res: Option<TestOutcome>)
    requires
        expected.0@.len() >= agent_num,
        expected.1@.len() >= agent_num,
        expected.2@.len() >= agent_num,
    ensures
        match judge_lines(string_views(lines@), agent_num as nat, expected.0@, expected.1@, expected.2@) {
            None => res is None,
            Some(j) => res matches Some(o) && o.results@ == joined(j.results) && o.has_errors
                == j.has_errors && o.report@ == report_text(test_id as nat, test_name@, j),
        },
{
    let (expected_s, expected_r, expected_d) = expected;
    let ghost n = agent_num as nat;
    let ghost lv = string_views(lines@);
    // The agents expected to die.
    let mut deaths: usize = 0;
    let mut death_text = String::new();
    let mut idx: usize = 0;
    while idx < agent_num
        invariant
            idx <= agent_num,
            expected_d@.len() >= agent_num,
            deaths == death_count(expected_d@, idx as int),
            deaths <= idx,
            death_text@ == death_lines(expected_d@, idx as int),
        decreases agent_num - idx,
    {
        if expected_d[idx] != 0 {
            death_text.append("Agente ");
            push_decimal(&mut death_text, idx as u64);
            death_text.append(" deveria morrer\n");
            deaths = deaths + 1;
        }
        idx = idx + 1;
    }
    let mut errors: Vec<String> = Vec::new();
    let mut results: Vec<String> = Vec::new();
    let mut k: usize = 0;
    while k < agent_num
        invariant
            k <= agent_num,
            errors@.len() == k,
            results@.len() == k,
            forall|i: int| 0 <= i < k ==> (#[trigger] errors@[i])@ == if i == 0 {
                death_lines(expected_d@, agent_num as int)
            } else {
                Seq::<char>::empty()
            },
            forall|i: int| 0 <= i < k ==> (#[trigger] results@[i])@ == Seq::<char>::empty(),
            death_text@ == death_lines(expected_d@, agent_num as int),
        decreases agent_num - k,
    {
        if k == 0 {
            errors.push(death_text.clone());
        } else {
            errors.push(String::new());
        }
        results.push(String::new());
        k = k + 1;
    }
    proof {
        assert(string_views(errors@) =~= initial_judgement(n, expected_d@).errors);
        assert(string_views(results@) =~= initial_judgement(n, expected_d@).results);
        assert(lv.subrange(0, 0) =~= Seq::<Seq<char>>::empty());
    }
    let mut has_errors = false;
    let mut total_sends: usize = 0;
    let mut total_receivs: usize = 0;
    let mut total_expected_sends: usize = 0;
    let mut total_expected_receivs: usize = 0;
    let mut li: usize = 0;
    while li < lines.len()
        invariant
            li <= lines@.len(),
            lv == string_views(lines@),
            n == agent_num,
            expected_s == expected.0,
            expected_r == expected.1,
            expected_d == expected.2,
            expected_s@.len() >= agent_num,
            expected_r@.len() >= agent_num,
            expected_d@.len() >= agent_num,
            deaths == death_count(expected_d@, agent_num as int),
            errors@.len() == agent_num,
            results@.len() == agent_num,
            judge_lines(lv.subrange(0, li as int), n, expected_s@, expected_r@, expected_d@) == Some(
                Judgement {
                    errors: string_views(errors@),
                    has_errors,
                    results: string_views(results@),
                    sends: total_sends as int,
                    receivs: total_receivs as int,
                    exp_sends: total_expected_sends as int,
                    exp_receivs: total_expected_receivs as int,
                },
            ),
        decreases lines@.len() - li,
    {
        let ghost before = Judgement {
            errors: string_views(errors@),
            has_errors,
            results: string_views(results@),
            sends: total_sends as int,
            receivs: total_receivs as int,
            exp_sends: total_expected_sends as int,
            exp_receivs: total_expected_receivs as int,
        };
        let ghost upto = lv.subrange(0, li + 1);
        proof {
            assert(upto.drop_last() =~= lv.subrange(0, li as int));
            assert(upto.last() == lines@[li as int]@);
        }
        let r = match parse_result_line(lines[li].as_str()) {
            Some(r) => r,
            None => {
                proof {
                    assert(judge_lines(upto, n, expected_s@, expected_r@, expected_d@) is None);
                    lemma_judge_none_extends(lv, li as int + 1, n, expected_s@, expected_r@, expected_d@);
                }
                return None;
            },
        };
        let ghost next = judge_line(before, upto.last(), r, expected_s@, expected_r@, deaths as nat);
        let idx = r.agent;
        if idx >= agent_num {
            proof {
                assert(judge_lines(upto, n, expected_s@, expected_r@, expected_d@) is None);
                lemma_judge_none_extends(lv, li as int + 1, n, expected_s@, expected_r@, expected_d@);
            }
            return None;
        }
        if !can_check_count(r.sends, expected_s[idx], deaths) || !can_check_count(r.receivs, expected_r[idx], deaths) {
            proof {
                assert(judge_lines(upto, n, expected_s@, expected_r@, expected_d@) is None);
                lemma_judge_none_extends(lv, li as int + 1, n, expected_s@, expected_r@, expected_d@);
            }
            return None;
        }
        let s_ok = check_count(r.sends, expected_s[idx], deaths);
        let r_ok = check_count(r.receivs, expected_r[idx], deaths);
        let sum = total_sends.checked_add(r.sends);
        let rsum = total_receivs.checked_add(r.receivs);
        let esum = total_expected_sends.checked_add(expected_s[idx]);
        let ersum = total_expected_receivs.checked_add(expected_r[idx]);
        match (sum, rsum, esum, ersum) {
            (Some(a), Some(b), Some(c), Some(d)) => {
                let mut e = errors[idx].clone();
                if !s_ok {
                    push_count_error(&mut e, "Enviados", idx, r.sends, expected_s[idx], deaths);
                    has_errors = true;
                }
                if !r_ok {
                    push_count_error(&mut e, "Recebidos", idx, r.receivs, expected_r[idx], deaths);
                    has_errors = true;
                }
                errors.set(idx, e);
                results.set(idx, lines[li].clone());
                total_sends = a;
                total_receivs = b;
                total_expected_sends = c;
                total_expected_receivs = d;
                proof {
                    assert(string_views(errors@) =~= next.errors);
                    assert(string_views(results@) =~= next.results);
                }
            },
            _ => {
                proof {
                    lemma_judge_none_extends(lv, li as int + 1, n, expected_s@, expected_r@, expected_d@);
                }
                return None;
            },
        }
        li = li + 1;
    }
    proof {
        assert(lv.subrange(0, lines@.len() as int) =~= lv);
    }
    let ghost j = judge_lines(lv, n, expected_s@, expected_r@, expected_d@)->0;
    let mut all_results = String::new();
    join_strings(&mut all_results, &results);
    let mut all_errors = String::new();
    join_strings(&mut all_errors, &errors);
    if all_errors.unicode_len() > 0 {
        all_errors.append("----------\n");
    }
    let mut report = String::new();
    report.append("\n----------\nTeste ");
    push_decimal(&mut report, test_id as u64);
    report.append(": ");
    report.append(test_name);
    report.append("\n----------\n");
    report.append(all_errors.as_str());
    report.append("Total de Mensagens Enviadas: ");
    push_decimal(&mut report, total_sends as u64);
    report.append("/");
    push_decimal(&mut report, total_expected_sends as u64);
    report.append("\nTotal de Mensagens Recebidas: ");
    push_decimal(&mut report, total_receivs as u64);
    report.append("/");
    push_decimal(&mut report, total_expected_receivs as u64);
    report.append("\n");
    proof {
        assert(report@ =~= report_text(test_id as nat, test_name@, j));
    }
    Some(TestOutcome { results: all_results, has_errors, report })
}

/// Once the judgement of a prefix of the lines fails, so does that of all of them.
proof fn lemma_judge_none_extends(
    lines: Seq<Seq<char>>,
    k: int,
    n: nat,
    exp_s: Seq<usize>,
    exp_r: Seq<usize>,
    exp_d: Seq<usize>,
)
    requires
        0 <= k <= lines.len(),
        judge_lines(lines.subrange(0, k), n, exp_s, exp_r, exp_d) is None,
    ensures
        judge_lines(lines, n, exp_s, exp_r, exp_d) is None,
    decreases lines.len() - k,
{
    if k < lines.len() {
        assert(lines.subrange(0, k + 1).drop_last() =~= lines.subrange(0, k));
        lemma_judge_none_extends(lines, k + 1, n, exp_s, exp_r, exp_d);
    } else {
        assert(lines.subrange(0, k) =~= lines);
    }
}

} // verus!
