//! Server response parsing: each line is either the tagged completion of a
//! command (tag plus OK/NO/BAD), an untagged data line (`* n FETCH ...`,
//! `* n EXPUNGE`, and the rest), or something the policy has no interest in.

use vstd::prelude::*;
use crate::bytes::{dec_val, is_numeral, parse_num, split_tokens, subvec, to_upper, tokens_of,
    upper_seq};
use crate::command::{strip_crlf, strip_line_end};

verus! {

/// The response shapes the interception policy distinguishes.
pub enum RespLine {
    /// Final per-command completion: the client's tag and whether the status
    /// was `OK`.
    Tagged { tag: Vec<u8>, ok: bool },
    /// Untagged `* n FETCH ...` data for message number `num`.
    UntaggedFetch { num: u32 },
    /// Untagged `* n EXPUNGE` notification for message number `num`.
    UntaggedExpunge { num: u32 },
    /// Any other line: untagged data of other kinds, continuations,
    /// malformed lines. Relayed, never acted on.
    OtherLine,
}

/// Mathematical image of a `RespLine`.
#[verifier::ext_equal]
pub enum RespModel {
    Tagged { tag: Seq<u8>, ok: bool },
    UntaggedFetch { num: u32 },
    UntaggedExpunge { num: u32 },
    OtherLine,
}

/// The model a `RespLine` denotes.
pub open spec fn resp_model(r: RespLine) -> RespModel {
    match r {
        RespLine::Tagged { tag, ok } => RespModel::Tagged { tag: tag@, ok },
        RespLine::UntaggedFetch { num } => RespModel::UntaggedFetch { num },
        RespLine::UntaggedExpunge { num } => RespModel::UntaggedExpunge { num },
        RespLine::OtherLine => RespModel::OtherLine,
    }
}

/// What a server line classifies to. A line opening with `*` and carrying a
/// recognised message number is FETCH or EXPUNGE data when its third token
/// says so; a line opening with a plain tag and a status token is the tagged
/// completion, `ok` exactly when the status is `OK`.
pub open spec fn classify_resp(line: Seq<u8>) -> RespModel {
    let toks = tokens_of(strip_crlf(line));
    if toks.len() >= 1 && toks[0] == seq![42u8] {
        if toks.len() >= 3 && is_numeral(toks[1]) && upper_seq(toks[2]) == seq![70u8, 69u8, 84u8,
            67u8, 72u8] {
            RespModel::UntaggedFetch { num: dec_val(toks[1]) as u32 }
        } else if toks.len() >= 3 && is_numeral(toks[1]) && upper_seq(toks[2]) == seq![69u8, 88u8,
            80u8, 85u8, 78u8, 71u8, 69u8] {
            RespModel::UntaggedExpunge { num: dec_val(toks[1]) as u32 }
        } else {
            RespModel::OtherLine
        }
    } else if toks.len() >= 2 && toks[0].len() > 0 && toks[0] != seq![43u8] {
        RespModel::Tagged { tag: toks[0], ok: upper_seq(toks[1]) == seq![79u8, 75u8] }
    } else {
        RespModel::OtherLine
    }
}

/// Classify a server line, as `classify_resp` gives it.
pub fn classify_response(line: &Vec<u8>) -> (r: RespLine)
    ensures
        resp_model(r) == classify_resp(line@),
{
    let bare = strip_line_end(line);
    let toks = split_tokens(&bare);
    if toks.len() == 0 {
        return RespLine::OtherLine;
    }
    let t0 = &toks[0];
    if t0.len() == 1 && t0[0] == 42 {
        proof {
            assert(t0@ =~= seq![42u8]);
        }
        if toks.len() >= 3 {
            let num = parse_num(&toks[1]);
            let u2 = to_upper(&toks[2]);
            match num {
                Option::Some(n) => {
                    if u2.len() == 5 && u2[0] == 70 && u2[1] == 69 && u2[2] == 84 && u2[3] == 67
                        && u2[4] == 72 {
                        proof {
                            assert(u2@ =~= seq![70u8, 69u8, 84u8, 67u8, 72u8]);
                        }
                        RespLine::UntaggedFetch { num: n }
                    } else if u2.len() == 7 && u2[0] == 69 && u2[1] == 88 && u2[2] == 80 && u2[3]
                        == 85 && u2[4] == 78 && u2[5] == 71 && u2[6] == 69 {
                        proof {
                            assert(u2@ =~= seq![69u8, 88u8, 80u8, 85u8, 78u8, 71u8, 69u8]);
                        }
                        RespLine::UntaggedExpunge { num: n }
                    } else {
                        RespLine::OtherLine
                    }
                },
                Option::None => RespLine::OtherLine,
            }
        } else {
            RespLine::OtherLine
        }
    } else if toks.len() >= 2 && t0.len() > 0 && !(t0.len() == 1 && t0[0] == 43) {
        proof {
            assert(t0@ != seq![42u8] && t0@ != seq![43u8]) by {
                if t0@ == seq![42u8] {
                    assert(t0@.len() == 1 && t0@[0] == 42);
                }
                if t0@ == seq![43u8] {
                    assert(t0@.len() == 1 && t0@[0] == 43);
                }
            }
        }
        let tag = subvec(t0, 0, t0.len());
        proof {
            assert(t0@.subrange(0, t0@.len() as int) =~= t0@);
        }
        let u1 = to_upper(&toks[1]);
        let ok = u1.len() == 2 && u1[0] == 79 && u1[1] == 75;
        proof {
            if ok {
                assert(u1@ =~= seq![79u8, 75u8]);
            }
        }
        RespLine::Tagged { tag, ok }
    } else {
        proof {
            if t0@ == seq![42u8] {
                assert(t0@.len() == 1 && t0@[0] == 42);
            }
            if t0@.len() == 1 && t0@[0] == 43 {
                assert(t0@ =~= seq![43u8]);
            }
        }
        RespLine::OtherLine
    }
}

} // verus!
