//! Client command parsing: a command line is a tag, a verb and the minimal
//! argument structure caching needs. Unrecognised verbs parse as
//! `Verb::Other` — the proxy never refuses to relay a command it does not
//! understand; it just cannot intercept it.

use vstd::prelude::*;
use crate::bytes::{CR, LF, is_numeral, split_tokens, subvec, to_upper, tokens_of, upper_seq, views};

verus! {

/// The command verbs the interception policy distinguishes.
#[derive(Clone, Copy, Debug, PartialEq, Eq, Structural)]
pub enum Verb {
    Fetch,
    UidFetch,
    Store,
    UidStore,
    Delete,
    Expunge,
    Select,
    List,
    Search,
    Sort,
    Status,
    Append,
    CopyMsg,
    Noop,
    Idle,
    Other,
}

/// A parsed client command: correlation tag, verb, remaining argument tokens.
pub struct ParsedCommand {
    pub tag: Vec<u8>,
    pub verb: Verb,
    pub args: Vec<Vec<u8>>,
}

/// Mathematical image of a `ParsedCommand`.
#[verifier::ext_equal]
pub struct CmdModel {
    pub tag: Seq<u8>,
    pub verb: Verb,
    pub args: Seq<Seq<u8>>,
}

/// The model a `ParsedCommand` denotes.
pub open spec fn cmd_model(c: ParsedCommand) -> CmdModel {
    CmdModel { tag: c.tag@, verb: c.verb, args: views(c.args@) }
}

/// `s` without one trailing CRLF, if it carries one.
pub open spec fn strip_crlf(s: Seq<u8>) -> Seq<u8> {
    if s.len() >= 2 && s[s.len() - 2] == CR && s[s.len() - 1] == LF {
        s.take(s.len() - 2)
    } else {
        s
    }
}

/// Copy of `v` without one trailing CRLF, as `strip_crlf` gives it.
pub fn strip_line_end(v: &Vec<u8>) -> (r: Vec<u8>)
    ensures
        r@ == strip_crlf(v@),
{
    if v.len() >= 2 && v[v.len() - 2] == CR && v[v.len() - 1] == LF {
        let r = subvec(v, 0, v.len() - 2);
        proof {
            assert(v@.subrange(0, v@.len() - 2) =~= v@.take(v@.len() - 2));
        }
        r
    } else {
        let r = subvec(v, 0, v.len());
        proof {
            assert(v@.subrange(0, v@.len() as int) =~= v@);
        }
        r
    }
}

/// The verb an upper-cased verb token denotes.
pub open spec fn verb_of(u: Seq<u8>) -> Verb {
    if u == seq![70u8, 69u8, 84u8, 67u8, 72u8] {
        Verb::Fetch
    } else if u == seq![83u8, 84u8, 79u8, 82u8, 69u8] {
        Verb::Store
    } else if u == seq![68u8, 69u8, 76u8, 69u8, 84u8, 69u8] {
        Verb::Delete
    } else if u == seq![69u8, 88u8, 80u8, 85u8, 78u8, 71u8, 69u8] {
        Verb::Expunge
    } else if u == seq![83u8, 69u8, 76u8, 69u8, 67u8, 84u8] {
        Verb::Select
    } else if u == seq![76u8, 73u8, 83u8, 84u8] {
        Verb::List
    } else if u == seq![83u8, 69u8, 65u8, 82u8, 67u8, 72u8] {
        Verb::Search
    } else if u == seq![83u8, 79u8, 82u8, 84u8] {
        Verb::Sort
    } else if u == seq![83u8, 84u8, 65u8, 84u8, 85u8, 83u8] {
        Verb::Status
    } else if u == seq![65u8, 80u8, 80u8, 69u8, 78u8, 68u8] {
        Verb::Append
    } else if u == seq![67u8, 79u8, 80u8, 89u8] {
        Verb::CopyMsg
    } else if u == seq![78u8, 79u8, 79u8, 80u8] {
        Verb::Noop
    } else if u == seq![73u8, 68u8, 76u8, 69u8] {
        Verb::Idle
    } else {
        Verb::Other
    }
}

/// The verb an upper-cased token denotes, as `verb_of` gives it.
pub fn verb_from_upper(u: &Vec<u8>) -> (r: Verb)
    ensures
        r == verb_of(u@),
{
    if u.len() == 5 && u[0] == 70 && u[1] == 69 && u[2] == 84 && u[3] == 67 && u[4] == 72 {
        proof {
            assert(u@ =~= seq![70u8, 69u8, 84u8, 67u8, 72u8]);
        }
        Verb::Fetch
    } else if u.len() == 5 && u[0] == 83 && u[1] == 84 && u[2] == 79 && u[3] == 82 && u[4] == 69 {
        proof {
            assert(u@ =~= seq![83u8, 84u8, 79u8, 82u8, 69u8]);
        }
        Verb::Store
    } else if u.len() == 6 && u[0] == 68 && u[1] == 69 && u[2] == 76 && u[3] == 69 && u[4] == 84
        && u[5] == 69 {
        proof {
            assert(u@ =~= seq![68u8, 69u8, 76u8, 69u8, 84u8, 69u8]);
        }
        Verb::Delete
    } else if u.len() == 7 && u[0] == 69 && u[1] == 88 && u[2] == 80 && u[3] == 85 && u[4] == 78
        && u[5] == 71 && u[6] == 69 {
        proof {
            assert(u@ =~= seq![69u8, 88u8, 80u8, 85u8, 78u8, 71u8, 69u8]);
        }
        Verb::Expunge
    } else if u.len() == 6 && u[0] == 83 && u[1] == 69 && u[2] == 76 && u[3] == 69 && u[4] == 67
        && u[5] == 84 {
        proof {
            assert(u@ =~= seq![83u8, 69u8, 76u8, 69u8, 67u8, 84u8]);
        }
        Verb::Select
    } else if u.len() == 4 && u[0] == 76 && u[1] == 73 && u[2] == 83 && u[3] == 84 {
        proof {
            assert(u@ =~= seq![76u8, 73u8, 83u8, 84u8]);
        }
        Verb::List
    } else if u.len() == 6 && u[0] == 83 && u[1] == 69 && u[2] == 65 && u[3] == 82 && u[4] == 67
        && u[5] == 72 {
        proof {
            assert(u@ =~= seq![83u8, 69u8, 65u8, 82u8, 67u8, 72u8]);
        }
        Verb::Search
    } else if u.len() == 4 && u[0] == 83 && u[1] == 79 && u[2] == 82 && u[3] == 84 {
        proof {
            assert(u@ =~= seq![83u8, 79u8, 82u8, 84u8]);
        }
        Verb::Sort
    } else if u.len() == 6 && u[0] == 83 && u[1] == 84 && u[2] == 65 && u[3] == 84 && u[4] == 85
        && u[5] == 83 {
        proof {
            assert(u@ =~= seq![83u8, 84u8, 65u8, 84u8, 85u8, 83u8]);
        }
        Verb::Status
    } else if u.len() == 6 && u[0] == 65 && u[1] == 80 && u[2] == 80 && u[3] == 69 && u[4] == 78
        && u[5] == 68 {
        proof {
            assert(u@ =~= seq![65u8, 80u8, 80u8, 69u8, 78u8, 68u8]);
        }
        Verb::Append
    } else if u.len() == 4 && u[0] == 67 && u[1] == 79 && u[2] == 80 && u[3] == 89 {
        proof {
            assert(u@ =~= seq![67u8, 79u8, 80u8, 89u8]);
        }
        Verb::CopyMsg
    } else if u.len() == 4 && u[0] == 78 && u[1] == 79 && u[2] == 79 && u[3] == 80 {
        proof {
            assert(u@ =~= seq![78u8, 79u8, 79u8, 80u8]);
        }
        Verb::Noop
    } else if u.len() == 4 && u[0] == 73 && u[1] == 68 && u[2] == 76 && u[3] == 69 {
        proof {
            assert(u@ =~= seq![73u8, 68u8, 76u8, 69u8]);
        }
        Verb::Idle
    } else {
        Verb::Other
    }
}

/// Whether an upper-cased token is `UID`.
pub open spec fn is_uid_tok(u: Seq<u8>) -> bool {
    u == seq![85u8, 73u8, 68u8]
}

/// Whether `u` is the token `UID`, as `is_uid_tok` gives it.
pub fn check_uid_tok(u: &Vec<u8>) -> (r: bool)
    ensures
        r == is_uid_tok(u@),
{
    let r = u.len() == 3 && u[0] == 85 && u[1] == 73 && u[2] == 68;
    proof {
        if r {
            assert(u@ =~= seq![85u8, 73u8, 68u8]);
        }
    }
    r
}

/// What a well-formed command line parses to: tag, verb (a leading `UID`
/// turns `FETCH` into `UID FETCH` and `STORE` into `UID STORE`), remaining
/// tokens. A line whose tag is
/// empty, `*` or `+`, or which has no verb token, does not parse; such a
/// line is relayed unread.
pub open spec fn parse_cmd(line: Seq<u8>) -> Option<CmdModel> {
    let toks = tokens_of(strip_crlf(line));
    if toks.len() < 2 || toks[0].len() == 0 || toks[0] == seq![42u8] || toks[0] == seq![43u8] {
        None
    } else if is_uid_tok(upper_seq(toks[1])) {
        if toks.len() >= 3 {
            Some(
                CmdModel {
                    tag: toks[0],
                    verb: if verb_of(upper_seq(toks[2])) == Verb::Fetch {
                        Verb::UidFetch
                    } else if verb_of(upper_seq(toks[2])) == Verb::Store {
                        Verb::UidStore
                    } else {
                        verb_of(upper_seq(toks[2]))
                    },
                    args: toks.skip(3),
                },
            )
        } else {
            Some(CmdModel { tag: toks[0], verb: Verb::Other, args: toks.skip(2) })
        }
    } else {
        Some(CmdModel { tag: toks[0], verb: verb_of(upper_seq(toks[1])), args: toks.skip(2) })
    }
}

/// Copies of the tokens of `toks` from `i` on.
pub fn tail_tokens(toks: &Vec<Vec<u8>>, i: usize) -> (r: Vec<Vec<u8>>)
    requires
        i <= toks@.len(),
    ensures
        views(r@) == views(toks@).skip(i as int),
{
    let mut r: Vec<Vec<u8>> = Vec::new();
    let mut k: usize = i;
    while k < toks.len()
        invariant
            i <= k <= toks@.len(),
            r@.len() == k - i,
            forall|x: int| 0 <= x < r@.len() ==> (#[trigger] r@[x])@ == toks@[i + x]@,
        decreases toks.len() - k,
    {
        let t = subvec(&toks[k], 0, toks[k].len());
        proof {
            assert(toks@[k as int]@.subrange(0, toks@[k as int]@.len() as int)
                =~= toks@[k as int]@);
        }
        r.push(t);
        k += 1;
    }
    proof {
        assert(views(r@) =~~= views(toks@).skip(i as int));
    }
    r
}

/// Parse a client command line, as `parse_cmd` gives it.
pub fn parse_command(line: &Vec<u8>) -> (r: Option<ParsedCommand>)
    ensures
        r is Some <==> parse_cmd(line@) is Some,
        r matches Some(c) ==> cmd_model(c) == parse_cmd(line@)->0,
{
    let bare = strip_line_end(line);
    let toks = split_tokens(&bare);
    let ghost tm = tokens_of(strip_crlf(line@));
    if toks.len() < 2 {
        return None;
    }
    let t0 = &toks[0];
    if t0.len() == 0 || (t0.len() == 1 && (t0[0] == 42 || t0[0] == 43)) {
        proof {
            if t0@.len() == 1 {
                if t0@[0] == 42 {
                    assert(t0@ =~= seq![42u8]);
                } else {
                    assert(t0@ =~= seq![43u8]);
                }
            }
        }
        return None;
    }
    proof {
        assert(tm[0] != seq![42u8] && tm[0] != seq![43u8]) by {
            if tm[0] == seq![42u8] || tm[0] == seq![43u8] {
                assert(t0@.len() == 1);
                assert(t0@[0] == 42 || t0@[0] == 43);
            }
        }
    }
    let tag = subvec(t0, 0, t0.len());
    proof {
        assert(t0@.subrange(0, t0@.len() as int) =~= t0@);
    }
    let u1 = to_upper(&toks[1]);
    if check_uid_tok(&u1) {
        if toks.len() >= 3 {
            let u2 = to_upper(&toks[2]);
            let v2 = verb_from_upper(&u2);
            let verb = if matches!(v2, Verb::Fetch) {
                Verb::UidFetch
            } else if matches!(v2, Verb::Store) {
                Verb::UidStore
            } else {
                v2
            };
            let args = tail_tokens(&toks, 3);
            let c = ParsedCommand { tag, verb, args };
            proof {
                assert(cmd_model(c) =~~= parse_cmd(line@)->0);
            }
            Some(c)
        } else {
            let args = tail_tokens(&toks, 2);
            let c = ParsedCommand { tag, verb: Verb::Other, args };
            proof {
                assert(cmd_model(c) =~~= parse_cmd(line@)->0);
            }
            Some(c)
        }
    } else {
        let verb = verb_from_upper(&u1);
        let args = tail_tokens(&toks, 2);
        let c = ParsedCommand { tag, verb, args };
        proof {
            assert(cmd_model(c) =~~= parse_cmd(line@)->0);
        }
        Some(c)
    }
}

/// ASCII comma.
pub const COMMA: u8 = 44;

/// ASCII colon.
pub const COLON: u8 = 58;

/// Largest span a recognised `a:b` range may have. A STORE whose range is
/// wider is not resolved into single messages; its whole mailbox is
/// invalidated instead, which is safe, never stale.
pub const MAX_RANGE_SPAN: u32 = 1000;

/// The numbers `a..=b`.
pub open spec fn range_nums(a: u32, b: u32) -> Seq<u32> {
    Seq::new((b - a + 1) as nat, |i: int| (a + i) as u32)
}

/// The message numbers one sequence-set element denotes: a single numeral,
/// or a bounded `a:b` range. `*` and anything else are not resolved.
pub open spec fn elem_nums(e: Seq<u8>) -> Option<Seq<u32>> {
    if is_numeral(e) {
        Some(seq![crate::bytes::dec_val(e) as u32])
    } else {
        let c = crate::bytes::first_byte_from(e, COLON, 0);
        if c < e.len() && is_numeral(e.subrange(0, c)) && is_numeral(
            e.subrange(c + 1, e.len() as int),
        ) {
            let a = crate::bytes::dec_val(e.subrange(0, c)) as u32;
            let b = crate::bytes::dec_val(e.subrange(c + 1, e.len() as int)) as u32;
            if a <= b && b - a < MAX_RANGE_SPAN {
                Some(range_nums(a, b))
            } else {
                None
            }
        } else {
            None
        }
    }
}

/// The message numbers a comma-separated sequence set denotes from `i` on;
/// nothing if any element cannot be resolved.
pub open spec fn seq_set_from(s: Seq<u8>, i: int) -> Option<Seq<u32>>
    decreases s.len() - i,
    via seq_set_from_dec
{
    if i < 0 || i >= s.len() {
        Some(seq![])
    } else {
        let j = crate::bytes::first_byte_from(s, COMMA, i);
        let next = if j + 1 <= s.len() {
            j + 1
        } else {
            s.len() as int
        };
        match elem_nums(s.subrange(i, j)) {
            Option::Some(ns) => match seq_set_from(s, next) {
                Option::Some(rest) => Some(ns + rest),
                Option::None => None,
            },
            Option::None => None,
        }
    }
}

#[via_fn]
proof fn seq_set_from_dec(s: Seq<u8>, i: int) {
    if 0 <= i && i < s.len() {
        crate::bytes::lemma_first_byte_from(s, COMMA, i);
    }
}

/// The message numbers a whole sequence-set token denotes, if it can be
/// resolved exactly.
pub open spec fn seq_set_nums(s: Seq<u8>) -> Option<Seq<u32>> {
    if s.len() == 0 {
        None
    } else {
        seq_set_from(s, 0)
    }
}

/// Resolve one sequence-set element, as `elem_nums` gives it.
fn parse_elem(e: &Vec<u8>) -> (r: Option<Vec<u32>>)
    ensures
        r is Some <==> elem_nums(e@) is Some,
        r matches Some(v) ==> v@ == elem_nums(e@)->0,
{
    match crate::bytes::parse_num(e) {
        Option::Some(n) => {
            let mut out: Vec<u32> = Vec::new();
            out.push(n);
            proof {
                assert(out@ =~= seq![n]);
            }
            Some(out)
        },
        Option::None => {
            let c = crate::bytes::find_byte(e, COLON, 0);
            if c >= e.len() {
                return None;
            }
            let a_opt = crate::bytes::parse_num(&subvec(e, 0, c));
            let b_opt = crate::bytes::parse_num(&subvec(e, c + 1, e.len()));
            match (a_opt, b_opt) {
                (Option::Some(a), Option::Some(b)) => {
                    if a <= b && b - a < MAX_RANGE_SPAN {
                        let span = b - a;
                        let mut out: Vec<u32> = Vec::new();
                        let mut k: u32 = 0;
                        while k <= span
                            invariant
                                a <= b,
                                span == b - a,
                                span < MAX_RANGE_SPAN,
                                k <= span + 1,
                                out@.len() == k,
                                forall|x: int| 0 <= x < out@.len() ==> out@[x] == a + x,
                            decreases span - k + 1,
                        {
                            out.push(a + k);
                            k += 1;
                        }
                        proof {
                            assert(out@ =~= range_nums(a, b));
                        }
                        Some(out)
                    } else {
                        None
                    }
                },
                _ => None,
            }
        },
    }
}

/// Resolve a comma-separated sequence set from `i` on, as `seq_set_from`
/// gives it.
fn parse_seq_set_from(v: &Vec<u8>, i: usize) -> (r: Option<Vec<u32>>)
    requires
        i <= v@.len(),
    ensures
        r is Some <==> seq_set_from(v@, i as int) is Some,
        r matches Some(ns) ==> ns@ == seq_set_from(v@, i as int)->0,
    decreases v@.len() - i,
{
    if i >= v.len() {
        let out: Vec<u32> = Vec::new();
        proof {
            assert(out@ =~= Seq::<u32>::empty());
        }
        Some(out)
    } else {
        let j = crate::bytes::find_byte(v, COMMA, i);
        proof {
            crate::bytes::lemma_first_byte_from(v@, COMMA, i as int);
        }
        let elem = subvec(v, i, j);
        match parse_elem(&elem) {
            Option::None => None,
            Option::Some(mut ns) => {
                let next = if j < v.len() {
                    j + 1
                } else {
                    v.len()
                };
                match parse_seq_set_from(v, next) {
                    Option::None => None,
                    Option::Some(mut rest) => {
                        ns.append(&mut rest);
                        Some(ns)
                    },
                }
            },
        }
    }
}

/// Resolve a sequence-set token into its message numbers, as `seq_set_nums`
/// gives it: single numerals and bounded `a:b` ranges, comma-separated.
pub fn parse_seq_set(tok: &Vec<u8>) -> (r: Option<Vec<u32>>)
    ensures
        r is Some <==> seq_set_nums(tok@) is Some,
        r matches Some(ns) ==> ns@ == seq_set_nums(tok@)->0,
{
    if tok.len() == 0 {
        return None;
    }
    parse_seq_set_from(tok, 0)
}

/// Whether a fetch criterion token asks for body content: upper-cased it
/// begins with `BODY[` or `BODY.PEEK[`.
pub open spec fn is_body_criterion(t: Seq<u8>) -> bool {
    let u = upper_seq(t);
    (u.len() >= 5 && u.subrange(0, 5) == seq![66u8, 79u8, 68u8, 89u8, 91u8]) || (u.len() >= 10
        && u.subrange(0, 10) == seq![66u8, 79u8, 68u8, 89u8, 46u8, 80u8, 69u8, 69u8, 75u8, 91u8])
}

/// Whether `t` is a body-type fetch criterion, as `is_body_criterion` gives it.
pub fn check_body_criterion(t: &Vec<u8>) -> (r: bool)
    ensures
        r == is_body_criterion(t@),
{
    let u = to_upper(t);
    if u.len() >= 5 && u[0] == 66 && u[1] == 79 && u[2] == 68 && u[3] == 89 && u[4] == 91 {
        proof {
            assert(u@.subrange(0, 5) =~= seq![66u8, 79u8, 68u8, 89u8, 91u8]);
        }
        true
    } else if u.len() >= 10 && u[0] == 66 && u[1] == 79 && u[2] == 68 && u[3] == 89 && u[4] == 46
        && u[5] == 80 && u[6] == 69 && u[7] == 69 && u[8] == 75 && u[9] == 91 {
        proof {
            assert(u@.subrange(0, 10) =~= seq![66u8, 79u8, 68u8, 89u8, 46u8, 80u8, 69u8, 69u8,
                75u8, 91u8]);
        }
        true
    } else {
        proof {
            if is_body_criterion(t@) {
                if upper_seq(t@).len() >= 5 && upper_seq(t@).subrange(0, 5) == seq![66u8, 79u8,
                    68u8, 89u8, 91u8] {
                    assert(u@[0] == 66 && u@[1] == 79 && u@[2] == 68 && u@[3] == 89 && u@[4]
                        == 91);
                } else {
                    assert(u@[0] == 66 && u@[1] == 79 && u@[2] == 68 && u@[3] == 89 && u@[4] == 46
                        && u@[5] == 80 && u@[6] == 69 && u@[7] == 69 && u@[8] == 75 && u@[9]
                        == 91);
                }
            }
        }
        false
    }
}

/// Whether a cacheable fetch shape is present: `FETCH`/`UID FETCH`, a single
/// message number, and exactly one body-type criterion. Anything else —
/// ranges, several criteria, non-body criteria — is conservatively relayed.
pub open spec fn cacheable_fetch(c: CmdModel) -> bool {
    (c.verb == Verb::Fetch || c.verb == Verb::UidFetch) && c.args.len() == 2 && is_numeral(
        c.args[0],
    ) && is_body_criterion(c.args[1])
}

/// Whether an idling client line is `DONE` (any case), ending the idle.
pub open spec fn is_done_line(line: Seq<u8>) -> bool {
    upper_seq(strip_crlf(line)) == seq![68u8, 79u8, 78u8, 69u8]
}

/// Whether `line` is the idle-ending `DONE` line, as `is_done_line` gives it.
pub fn check_done_line(line: &Vec<u8>) -> (r: bool)
    ensures
        r == is_done_line(line@),
{
    let bare = strip_line_end(line);
    let u = to_upper(&bare);
    let r = u.len() == 4 && u[0] == 68 && u[1] == 79 && u[2] == 78 && u[3] == 69;
    proof {
        if r {
            assert(u@ =~= seq![68u8, 79u8, 78u8, 69u8]);
        }
    }
    r
}

} // verus!
