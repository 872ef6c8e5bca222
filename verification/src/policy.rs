//! The interception policy and per-session state: given one decoded unit and
//! the shared cache, decide whether to serve from cache, relay and capture,
//! invalidate, or purely relay. Every relayed unit keeps its exact bytes.

use vstd::prelude::*;
use crate::bytes::{append_bytes, dec_digits, is_numeral, parse_num, render_dec, split_tokens,
    subvec, to_upper, tokens_of, upper_seq, views};
use crate::cache::{Cache, KeyModel, MessageKey, SlotModel, clone_key, fresh, key_model, lookup,
    put_model};
use crate::command::{CmdModel, Verb, cacheable_fetch, check_body_criterion, check_done_line,
    cmd_model, is_done_line, parse_cmd, parse_command, strip_crlf};
use crate::response::{RespLine, RespModel, classify_resp, classify_response};

verus! {

/// What a relayed command asks the session to do when its tagged OK arrives.
pub enum OnOk {
    /// Store the body literal captured from the matching untagged FETCH data
    /// under this key.
    CaptureBody(MessageKey),
    /// Drop every cache entry of this mailbox.
    InvalidateMailbox(Vec<u8>),
    /// Drop the cache entries of exactly these messages of one mailbox,
    /// under one addressing mode, whatever their section.
    InvalidateMessages { mailbox: Vec<u8>, nums: Vec<u32>, by_uid: bool },
}

/// One in-flight command: its tag and what its completion triggers.
pub struct Pending {
    pub tag: Vec<u8>,
    pub action: OnOk,
}

/// Mathematical image of an `OnOk`.
#[verifier::ext_equal]
pub enum OnOkModel {
    CaptureBody(KeyModel),
    InvalidateMailbox(Seq<u8>),
    InvalidateMessages { mailbox: Seq<u8>, nums: Seq<u32>, by_uid: bool },
}

/// Mathematical image of a `Pending`.
#[verifier::ext_equal]
pub struct PendingModel {
    pub tag: Seq<u8>,
    pub action: OnOkModel,
}

/// The model an `OnOk` denotes.
pub open spec fn on_ok_model(a: OnOk) -> OnOkModel {
    match a {
        OnOk::CaptureBody(k) => OnOkModel::CaptureBody(key_model(k)),
        OnOk::InvalidateMailbox(mb) => OnOkModel::InvalidateMailbox(mb@),
        OnOk::InvalidateMessages { mailbox, nums, by_uid } => OnOkModel::InvalidateMessages {
            mailbox: mailbox@,
            nums: nums@,
            by_uid,
        },
    }
}

/// The model a `Pending` denotes.
pub open spec fn pending_model(p: Pending) -> PendingModel {
    PendingModel { tag: p.tag@, action: on_ok_model(p.action) }
}

/// The models of a pending vector.
pub open spec fn pendings_model(s: Seq<Pending>) -> Seq<PendingModel> {
    s.map_values(|p: Pending| pending_model(p))
}

/// Per-session interception state, shared between the two directions.
pub struct SessionCtx {
    /// The mailbox the last SELECT chose, keyed against by bare FETCHes.
    pub selected: Option<Vec<u8>>,
    /// Commands relayed upstream whose tagged completion is still owed.
    pub pending: Vec<Pending>,
    /// Whether the session sits in IDLE, awaiting the client's DONE.
    pub idling: bool,
    /// Key armed by a matching untagged FETCH line announcing a literal; the
    /// next server literal is stored under it.
    pub capture: Option<MessageKey>,
}

/// Mathematical image of a `SessionCtx`.
#[verifier::ext_equal]
pub struct CtxModel {
    pub selected: Option<Seq<u8>>,
    pub pending: Seq<PendingModel>,
    pub idling: bool,
    pub capture: Option<KeyModel>,
}

/// The model a `SessionCtx` denotes.
pub open spec fn ctx_model(c: SessionCtx) -> CtxModel {
    CtxModel {
        selected: match c.selected {
            Option::Some(mb) => Some(mb@),
            Option::None => None,
        },
        pending: pendings_model(c.pending@),
        idling: c.idling,
        capture: match c.capture {
            Option::Some(k) => Some(key_model(k)),
            Option::None => None,
        },
    }
}

impl SessionCtx {
    /// A fresh session: nothing selected, nothing pending, not idling.
    pub fn new() -> (r: SessionCtx)
        ensures
            ctx_model(r) == (CtxModel {
                selected: None::<Seq<u8>>,
                pending: Seq::<PendingModel>::empty(),
                idling: false,
                capture: None::<KeyModel>,
            }),
    {
        let r = SessionCtx { selected: None, pending: Vec::new(), idling: false, capture: None };
        proof {
            assert(pendings_model(r.pending@) =~= Seq::<PendingModel>::empty());
            assert(ctx_model(r) =~~= CtxModel {
                selected: None::<Seq<u8>>,
                pending: Seq::<PendingModel>::empty(),
                idling: false,
                capture: None::<KeyModel>,
            });
        }
        r
    }
}

/// The cache key a cacheable fetch addresses under the selected mailbox.
pub open spec fn hit_key(c: CmdModel, mb: Seq<u8>) -> KeyModel {
    KeyModel {
        mailbox: mb,
        num: crate::bytes::dec_val(c.args[0]) as u32,
        by_uid: c.verb == Verb::UidFetch,
        section: c.args[1],
    }
}

/// The pending entry relaying this command adds, if any: cacheable fetches
/// capture; a STORE whose sequence set resolves invalidates exactly the
/// stored messages on OK, one whose set cannot be resolved falls back to
/// its whole mailbox; EXPUNGE invalidates the selected mailbox on OK (the
/// expunged numbers are not known up front); DELETE invalidates its named
/// mailbox on OK.
pub open spec fn pend_of(c: CmdModel, ctx: CtxModel) -> Option<PendingModel> {
    if cacheable_fetch(c) && ctx.selected is Some {
        Some(
            PendingModel {
                tag: c.tag,
                action: OnOkModel::CaptureBody(hit_key(c, ctx.selected->0)),
            },
        )
    } else if (c.verb == Verb::Store || c.verb == Verb::UidStore) && ctx.selected is Some {
        if c.args.len() >= 1 && crate::command::seq_set_nums(c.args[0]) is Some {
            Some(
                PendingModel {
                    tag: c.tag,
                    action: OnOkModel::InvalidateMessages {
                        mailbox: ctx.selected->0,
                        nums: crate::command::seq_set_nums(c.args[0])->0,
                        by_uid: c.verb == Verb::UidStore,
                    },
                },
            )
        } else {
            Some(
                PendingModel { tag: c.tag, action: OnOkModel::InvalidateMailbox(ctx.selected->0) },
            )
        }
    } else if c.verb == Verb::Delete && c.args.len() >= 1 {
        Some(PendingModel { tag: c.tag, action: OnOkModel::InvalidateMailbox(c.args[0]) })
    } else if c.verb == Verb::Expunge && ctx.selected is Some {
        Some(PendingModel { tag: c.tag, action: OnOkModel::InvalidateMailbox(ctx.selected->0) })
    } else {
        None
    }
}

/// Whether the command is answered from cache: a cacheable fetch, a selected
/// mailbox, and a live entry under exactly that key.
pub open spec fn serves(
    ctx: CtxModel,
    c: CmdModel,
    m: Seq<SlotModel>,
    now: u64,
    ttl: u64,
) -> bool {
    &&& cacheable_fetch(c)
    &&& ctx.selected is Some
    &&& lookup(m, hit_key(c, ctx.selected->0)) matches Some(s) && fresh(s.created_at, now, ttl)
}

/// The wire bytes of a synthesized cached answer: the untagged FETCH data
/// line with the payload as a literal (a `UID n` data item included when the
/// fetch addressed by UID), then the tagged OK completion. Shaped like a
/// genuine server answer to the same command.
pub open spec fn synth_fetch_response(
    tag: Seq<u8>,
    numtok: Seq<u8>,
    section: Seq<u8>,
    payload: Seq<u8>,
    by_uid: bool,
) -> Seq<u8> {
    seq![42u8, 32u8] + numtok + seq![32u8, 70u8, 69u8, 84u8, 67u8, 72u8, 32u8, 40u8] + (if by_uid {
        seq![85u8, 73u8, 68u8, 32u8] + numtok + seq![32u8]
    } else {
        Seq::<u8>::empty()
    }) + section
        + seq![32u8, 123u8] + dec_digits(payload.len()) + seq![125u8, 13u8, 10u8] + payload
        + seq![41u8, 13u8, 10u8] + tag + seq![32u8, 79u8, 75u8, 32u8, 70u8, 69u8, 84u8, 67u8,
        72u8, 32u8, 99u8, 111u8, 109u8, 112u8, 108u8, 101u8, 116u8, 101u8, 100u8, 13u8, 10u8]
}

/// Build the synthesized cached answer, as `synth_fetch_response` gives it.
#[verifier::rlimit(100)]
fn build_synth_response(
    tag: &Vec<u8>,
    numtok: &Vec<u8>,
    section: &Vec<u8>,
    payload: &Vec<u8>,
    by_uid: bool,
) -> (r: Vec<u8>)
    ensures
        r@ == synth_fetch_response(tag@, numtok@, section@, payload@, by_uid),
{
    let mut r: Vec<u8> = Vec::new();
    r.push(42);
    r.push(32);
    append_bytes(&mut r, numtok);
    r.push(32);
    r.push(70);
    r.push(69);
    r.push(84);
    r.push(67);
    r.push(72);
    r.push(32);
    r.push(40);
    if by_uid {
        r.push(85);
        r.push(73);
        r.push(68);
        r.push(32);
        append_bytes(&mut r, numtok);
        r.push(32);
    }
    append_bytes(&mut r, section);
    r.push(32);
    r.push(123);
    let len_digits = render_dec(payload.len());
    append_bytes(&mut r, &len_digits);
    r.push(125);
    r.push(13);
    r.push(10);
    append_bytes(&mut r, payload);
    r.push(41);
    r.push(13);
    r.push(10);
    append_bytes(&mut r, tag);
    r.push(32);
    r.push(79);
    r.push(75);
    r.push(32);
    r.push(70);
    r.push(69);
    r.push(84);
    r.push(67);
    r.push(72);
    r.push(32);
    r.push(99);
    r.push(111);
    r.push(109);
    r.push(112);
    r.push(108);
    r.push(101);
    r.push(116);
    r.push(101);
    r.push(100);
    r.push(13);
    r.push(10);
    proof {
        assert(r@ =~= synth_fetch_response(tag@, numtok@, section@, payload@, by_uid));
    }
    r
}

/// What the policy tells the session to do with one client line.
pub enum ClientAction {
    /// Write these bytes upstream, unchanged from what the client sent.
    Forward(Vec<u8>),
    /// Write these bytes back to the client; upstream sees nothing.
    Reply(Vec<u8>),
}

/// An exact copy of a line.
fn copy_line(line: &Vec<u8>) -> (r: Vec<u8>)
    ensures
        r@ == line@,
{
    let r = subvec(line, 0, line.len());
    proof {
        assert(line@.subrange(0, line@.len() as int) =~= line@);
    }
    r
}

/// Apply the interception policy to one complete client line.
///
/// While idling, only the `DONE` line is interpreted (it ends the idle);
/// everything is forwarded verbatim. Otherwise the line is parsed; a
/// cacheable fetch with a live entry under the selected mailbox is answered
/// from cache without touching upstream, a cacheable miss is relayed and
/// marked for capture, STORE/DELETE/EXPUNGE are relayed and marked for
/// invalidation on their OK, SELECT records the mailbox, IDLE enters the
/// idle, and everything else is relayed untouched.
pub fn handle_client_line(
    ctx: &mut SessionCtx,
    cache: &mut Cache,
    line: &Vec<u8>,
    now: u64,
) -> (act: ClientAction)
    requires
        old(cache).wf(),
    ensures
        final(cache).wf(),
        final(cache).ttl == old(cache).ttl,
        // a forwarded line is the client's own bytes, unaltered
        act matches ClientAction::Forward(l) ==> l@ == line@,
        // idling: only DONE is interpreted; nothing is cached or invalidated
        old(ctx).idling ==> act is Forward && *final(cache) == *old(cache) && ctx_model(
            *final(ctx),
        ) == (CtxModel {
            selected: ctx_model(*old(ctx)).selected,
            pending: ctx_model(*old(ctx)).pending,
            idling: !is_done_line(line@),
            capture: ctx_model(*old(ctx)).capture,
        }),
        // a line that does not parse is relayed untouched
        (!old(ctx).idling && parse_cmd(line@) is None) ==> act is Forward && *final(cache) == *old(
            cache,
        ) && *final(ctx) == *old(ctx),
        // a reply happens exactly on a live cacheable hit
        !old(ctx).idling ==> (act is Reply <==> (parse_cmd(line@) matches Some(c) && serves(
            ctx_model(*old(ctx)),
            c,
            old(cache).model(),
            now,
            old(cache).ttl,
        ))),
        // the reply is the synthesized answer holding the cached payload;
        // a relayed command updates the session per the policy table; a
        // cacheable miss may evict its own stale entry and nothing else moves
        !old(ctx).idling ==> (parse_cmd(line@) matches Some(c) ==> (if serves(
            ctx_model(*old(ctx)),
            c,
            old(cache).model(),
            now,
            old(cache).ttl,
        ) {
            (act matches ClientAction::Reply(resp) && resp@ == synth_fetch_response(
                c.tag,
                c.args[0],
                c.args[1],
                lookup(
                    old(cache).model(),
                    hit_key(c, ctx_model(*old(ctx)).selected->0),
                )->0.payload,
                c.verb == Verb::UidFetch,
            )) && *final(cache) == *old(cache) && *final(ctx) == *old(ctx)
        } else {
            act is Forward && ctx_model(*final(ctx)) == (CtxModel {
                selected: if c.verb == Verb::Select && c.args.len() >= 1 {
                    Some(c.args[0])
                } else {
                    ctx_model(*old(ctx)).selected
                },
                pending: match pend_of(c, ctx_model(*old(ctx))) {
                    Option::Some(p) => ctx_model(*old(ctx)).pending.push(p),
                    Option::None => ctx_model(*old(ctx)).pending,
                },
                idling: c.verb == Verb::Idle,
                capture: ctx_model(*old(ctx)).capture,
            }) && (if cacheable_fetch(c) && ctx_model(*old(ctx)).selected is Some {
                lookup(final(cache).model(), hit_key(c, ctx_model(*old(ctx)).selected->0))
                    is None && (forall|k2: KeyModel|
                    k2 != hit_key(c, ctx_model(*old(ctx)).selected->0) ==> lookup(
                        final(cache).model(),
                        k2,
                    ) == lookup(old(cache).model(), k2))
            } else {
                *final(cache) == *old(cache)
            })
        })),
{
    if ctx.idling {
        if check_done_line(line) {
            ctx.idling = false;
        }
        let fwd = copy_line(line);
        proof {
            assert(ctx_model(*ctx) =~~= (CtxModel {
                selected: ctx_model(*old(ctx)).selected,
                pending: ctx_model(*old(ctx)).pending,
                idling: !is_done_line(line@),
                capture: ctx_model(*old(ctx)).capture,
            }));
        }
        return ClientAction::Forward(fwd);
    }
    let parsed = parse_command(line);
    match parsed {
        Option::None => ClientAction::Forward(copy_line(line)),
        Option::Some(c) => {
            let num_opt = if c.args.len() >= 1 {
                parse_num(&c.args[0])
            } else {
                None
            };
            let cach = (c.verb == Verb::Fetch || c.verb == Verb::UidFetch) && c.args.len() == 2
                && num_opt.is_some() && check_body_criterion(&c.args[1]);
            let sel: Option<Vec<u8>> = match &ctx.selected {
                Option::Some(mb) => Some(copy_line(mb)),
                Option::None => None,
            };
            if cach && sel.is_some() {
                let mb = match sel {
                    Option::Some(mb) => mb,
                    Option::None => Vec::new(),
                };
                let num = num_opt.unwrap();
                let key = MessageKey {
                    mailbox: copy_line(&mb),
                    num,
                    by_uid: c.verb == Verb::UidFetch,
                    section: copy_line(&c.args[1]),
                };
                proof {
                    assert(key_model(key) =~= hit_key(cmd_model(c), mb@));
                }
                let got = cache.get(&key, now);
                match got {
                    Option::Some(payload) => {
                        let resp = build_synth_response(
                            &c.tag,
                            &c.args[0],
                            &c.args[1],
                            &payload,
                            matches!(c.verb, Verb::UidFetch),
                        );
                        ClientAction::Reply(resp)
                    },
                    Option::None => {
                        let tag = copy_line(&c.tag);
                        ctx.pending.push(Pending { tag, action: OnOk::CaptureBody(key) });
                        proof {
                            assert(ctx_model(*ctx) =~~= (CtxModel {
                                selected: ctx_model(*old(ctx)).selected,
                                pending: ctx_model(*old(ctx)).pending.push(
                                    pend_of(cmd_model(c), ctx_model(*old(ctx)))->0,
                                ),
                                idling: false,
                                capture: ctx_model(*old(ctx)).capture,
                            }));
                        }
                        ClientAction::Forward(copy_line(line))
                    },
                }
            } else if (c.verb == Verb::Store || c.verb == Verb::UidStore) && sel.is_some() {
                let mb = match sel {
                    Option::Some(mb) => mb,
                    Option::None => Vec::new(),
                };
                let tag = copy_line(&c.tag);
                let nums_opt = if c.args.len() >= 1 {
                    crate::command::parse_seq_set(&c.args[0])
                } else {
                    None
                };
                match nums_opt {
                    Option::Some(nums) => ctx.pending.push(
                        Pending {
                            tag,
                            action: OnOk::InvalidateMessages {
                                mailbox: mb,
                                nums,
                                by_uid: matches!(c.verb, Verb::UidStore),
                            },
                        },
                    ),
                    Option::None => ctx.pending.push(
                        Pending { tag, action: OnOk::InvalidateMailbox(mb) },
                    ),
                }
                proof {
                    assert(ctx_model(*ctx) =~~= (CtxModel {
                        selected: ctx_model(*old(ctx)).selected,
                        pending: ctx_model(*old(ctx)).pending.push(
                            pend_of(cmd_model(c), ctx_model(*old(ctx)))->0,
                        ),
                        idling: false,
                        capture: ctx_model(*old(ctx)).capture,
                    }));
                }
                ClientAction::Forward(copy_line(line))
            } else if c.verb == Verb::Delete && c.args.len() >= 1 {
                let tag = copy_line(&c.tag);
                let mb = copy_line(&c.args[0]);
                ctx.pending.push(Pending { tag, action: OnOk::InvalidateMailbox(mb) });
                proof {
                    assert(ctx_model(*ctx) =~~= (CtxModel {
                        selected: ctx_model(*old(ctx)).selected,
                        pending: ctx_model(*old(ctx)).pending.push(
                            pend_of(cmd_model(c), ctx_model(*old(ctx)))->0,
                        ),
                        idling: false,
                        capture: ctx_model(*old(ctx)).capture,
                    }));
                }
                ClientAction::Forward(copy_line(line))
            } else if c.verb == Verb::Expunge && sel.is_some() {
                let mb = match sel {
                    Option::Some(mb) => mb,
                    Option::None => Vec::new(),
                };
                let tag = copy_line(&c.tag);
                ctx.pending.push(Pending { tag, action: OnOk::InvalidateMailbox(mb) });
                proof {
                    assert(ctx_model(*ctx) =~~= (CtxModel {
                        selected: ctx_model(*old(ctx)).selected,
                        pending: ctx_model(*old(ctx)).pending.push(
                            pend_of(cmd_model(c), ctx_model(*old(ctx)))->0,
                        ),
                        idling: false,
                        capture: ctx_model(*old(ctx)).capture,
                    }));
                }
                ClientAction::Forward(copy_line(line))
            } else if c.verb == Verb::Select && c.args.len() >= 1 {
                ctx.selected = Some(copy_line(&c.args[0]));
                proof {
                    assert(ctx_model(*ctx) =~~= (CtxModel {
                        selected: Some(cmd_model(c).args[0]),
                        pending: ctx_model(*old(ctx)).pending,
                        idling: false,
                        capture: ctx_model(*old(ctx)).capture,
                    }));
                }
                ClientAction::Forward(copy_line(line))
            } else if c.verb == Verb::Idle {
                ctx.idling = true;
                ClientAction::Forward(copy_line(line))
            } else {
                ClientAction::Forward(copy_line(line))
            }
        },
    }
}

/// A cacheable fetch repeated while its captured entry is within TTL is
/// served from cache: after the capture stores payload `p` at `t`, the same
/// (mailbox, number, criterion) fetch at any `t2` within TTL satisfies
/// `serves`, so `handle_client_line` replies to it without forwarding
/// anything upstream, and the reply carries exactly the captured payload.
pub proof fn lemma_second_fetch_served(
    ctx: CtxModel,
    c: CmdModel,
    m: Seq<SlotModel>,
    p: Seq<u8>,
    t: u64,
    t2: u64,
    ttl: u64,
)
    requires
        cacheable_fetch(c),
        ctx.selected is Some,
        fresh(t, t2, ttl),
    ensures
        serves(ctx, c, put_model(m, hit_key(c, ctx.selected->0), p, t), t2, ttl),
        lookup(
            put_model(m, hit_key(c, ctx.selected->0), p, t),
            hit_key(c, ctx.selected->0),
        )->0.payload == p,
{
    crate::cache::lemma_lookup_put(m, hit_key(c, ctx.selected->0), p, t);
}

/// Once an entry's TTL has elapsed it serves nothing: a cacheable fetch
/// whose entry was created at `s.created_at` is not served at any `now` at
/// or past the TTL bound, so `handle_client_line` forwards it upstream (and
/// `Cache::get` both returns nothing and evicts the entry).
pub proof fn lemma_expired_entry_not_served(
    ctx: CtxModel,
    c: CmdModel,
    m: Seq<SlotModel>,
    now: u64,
    ttl: u64,
)
    requires
        lookup(m, hit_key(c, ctx.selected->0)) matches Some(s) && !fresh(s.created_at, now, ttl),
    ensures
        !serves(ctx, c, m, now, ttl),
{
}

/// First pending entry with this tag, if any.
pub open spec fn find_pending(p: Seq<PendingModel>, tag: Seq<u8>) -> Option<PendingModel>
    decreases p.len(),
{
    if p.len() == 0 {
        None
    } else if p[0].tag == tag {
        Some(p[0])
    } else {
        find_pending(p.drop_first(), tag)
    }
}

/// `p` with its first entry of this tag removed, if there is one.
pub open spec fn remove_pending_model(p: Seq<PendingModel>, tag: Seq<u8>) -> Seq<PendingModel>
    decreases p.len(),
{
    if p.len() == 0 {
        p
    } else if p[0].tag == tag {
        p.drop_first()
    } else {
        seq![p[0]] + remove_pending_model(p.drop_first(), tag)
    }
}

/// A tag with no pending entry is untouched by `remove_pending_model`.
pub proof fn lemma_remove_pending_absent(p: Seq<PendingModel>, tag: Seq<u8>)
    requires
        find_pending(p, tag) is None,
    ensures
        remove_pending_model(p, tag) == p,
    decreases p.len(),
{
    if p.len() > 0 {
        lemma_remove_pending_absent(p.drop_first(), tag);
        assert(seq![p[0]] + p.drop_first() =~= p);
    }
}

/// When `j` is the first entry of this tag, `find_pending` returns it.
pub proof fn lemma_find_pending_at(p: Seq<PendingModel>, j: int, tag: Seq<u8>)
    requires
        0 <= j < p.len(),
        p[j].tag == tag,
        forall|x: int| 0 <= x < j ==> p[x].tag != tag,
    ensures
        find_pending(p, tag) == Some(p[j]),
    decreases j,
{
    if j > 0 {
        lemma_find_pending_at(p.drop_first(), j - 1, tag);
    }
}

/// When `j` is the first entry of this tag, removing index `j` is removing
/// the tag.
pub proof fn lemma_remove_is_remove_pending(p: Seq<PendingModel>, j: int, tag: Seq<u8>)
    requires
        0 <= j < p.len(),
        p[j].tag == tag,
        forall|x: int| 0 <= x < j ==> p[x].tag != tag,
    ensures
        p.remove(j) == remove_pending_model(p, tag),
    decreases j,
{
    if j == 0 {
        assert(p.remove(0) =~= p.drop_first());
    } else {
        lemma_remove_is_remove_pending(p.drop_first(), j - 1, tag);
        assert(p.remove(j) =~= seq![p[0]] + p.drop_first().remove(j - 1));
    }
}

/// Index of the first pending entry with this tag, with `find_pending`'s facts.
fn find_pending_idx(p: &Vec<Pending>, tag: &Vec<u8>, i: usize) -> (r: Option<usize>)
    requires
        i <= p@.len(),
    ensures
        r matches Some(j) ==> i <= j < p@.len() && pendings_model(p@)[j as int].tag == tag@
            && find_pending(pendings_model(p@).skip(i as int), tag@) == Some(
            pendings_model(p@)[j as int],
        ) && (forall|x: int| i <= x < j ==> pendings_model(p@)[x].tag != tag@),
        r is None ==> find_pending(pendings_model(p@).skip(i as int), tag@) is None,
    decreases p@.len() - i,
{
    let ghost m = pendings_model(p@);
    if i == p.len() {
        proof {
            assert(m.skip(i as int) =~= Seq::<PendingModel>::empty());
        }
        None
    } else if crate::bytes::bytes_eq(&p[i].tag, tag) {
        proof {
            assert(m.skip(i as int)[0] == m[i as int]);
        }
        Some(i)
    } else {
        let r = find_pending_idx(p, tag, i + 1);
        proof {
            assert(m.skip(i as int)[0] == m[i as int]);
            assert(m.skip(i as int).drop_first() =~= m.skip(i + 1 as int));
        }
        r
    }
}

/// Whether a token opens a UID data item: `UID` or `(UID`, any case.
pub open spec fn is_uid_attr_tok(t: Seq<u8>) -> bool {
    upper_seq(t) == seq![85u8, 73u8, 68u8] || upper_seq(t) == seq![40u8, 85u8, 73u8, 68u8]
}

/// The first `UID n` data item among the tokens, if any.
pub open spec fn uid_attr(toks: Seq<Seq<u8>>) -> Option<u32>
    decreases toks.len(),
{
    if toks.len() < 2 {
        None
    } else if is_uid_attr_tok(toks[0]) && is_numeral(toks[1]) {
        Some(crate::bytes::dec_val(toks[1]) as u32)
    } else {
        uid_attr(toks.drop_first())
    }
}

/// Find the first `UID n` data item, as `uid_attr` gives it.
fn scan_uid_attr(toks: &Vec<Vec<u8>>, i: usize) -> (r: Option<u32>)
    requires
        i <= toks@.len(),
    ensures
        r == uid_attr(views(toks@).skip(i as int)),
    decreases toks@.len() - i,
{
    let ghost m = views(toks@);
    if toks.len() - i < 2 {
        proof {
            assert(m.skip(i as int).len() < 2);
        }
        None
    } else {
        let u = to_upper(&toks[i]);
        let is_uid = (u.len() == 3 && u[0] == 85 && u[1] == 73 && u[2] == 68) || (u.len() == 4
            && u[0] == 40 && u[1] == 85 && u[2] == 73 && u[3] == 68);
        proof {
            assert(m.skip(i as int)[0] == m[i as int]);
            assert(m.skip(i as int)[1] == m[i + 1 as int]);
            assert(m.skip(i as int).drop_first() =~= m.skip(i + 1 as int));
            if is_uid {
                if u@.len() == 3 {
                    assert(u@ =~= seq![85u8, 73u8, 68u8]);
                } else {
                    assert(u@ =~= seq![40u8, 85u8, 73u8, 68u8]);
                }
            } else {
                if upper_seq(m[i as int]) == seq![85u8, 73u8, 68u8] {
                    assert(u@.len() == 3 && u@[0] == 85 && u@[1] == 73 && u@[2] == 68);
                }
                if upper_seq(m[i as int]) == seq![40u8, 85u8, 73u8, 68u8] {
                    assert(u@.len() == 4 && u@[0] == 40 && u@[1] == 85 && u@[2] == 73 && u@[3]
                        == 68);
                }
            }
        }
        if is_uid {
            match parse_num(&toks[i + 1]) {
                Option::Some(n) => Some(n),
                Option::None => scan_uid_attr(toks, i + 1),
            }
        } else {
            scan_uid_attr(toks, i + 1)
        }
    }
}

/// The attribute token a server answers a body criterion with: upper-cased,
/// and with `.PEEK` folded away — a `BODY.PEEK[...]` request is answered by
/// a `BODY[...]` data item.
pub open spec fn section_answer(s: Seq<u8>) -> Seq<u8> {
    let u = upper_seq(s);
    if u.len() >= 10 && u.subrange(0, 10) == seq![66u8, 79u8, 68u8, 89u8, 46u8, 80u8, 69u8, 69u8,
        75u8, 91u8] {
        seq![66u8, 79u8, 68u8, 89u8, 91u8] + u.skip(10)
    } else {
        u
    }
}

/// Whether a line token is the data item answering this section criterion;
/// the token may open the parenthesised item list.
pub open spec fn tok_answers_section(t: Seq<u8>, s: Seq<u8>) -> bool {
    upper_seq(t) == section_answer(s) || upper_seq(t) == seq![40u8] + section_answer(s)
}

/// Whether some token of the line answers this section criterion.
pub open spec fn line_has_section(toks: Seq<Seq<u8>>, s: Seq<u8>) -> bool {
    exists|x: int| 0 <= x < toks.len() && tok_answers_section(#[trigger] toks[x], s)
}

/// The expected answering attribute, as `section_answer` gives it.
fn expected_section(section: &Vec<u8>) -> (r: Vec<u8>)
    ensures
        r@ == section_answer(section@),
{
    let u = to_upper(section);
    if u.len() >= 10 && u[0] == 66 && u[1] == 79 && u[2] == 68 && u[3] == 89 && u[4] == 46 && u[5]
        == 80 && u[6] == 69 && u[7] == 69 && u[8] == 75 && u[9] == 91 {
        proof {
            assert(u@.subrange(0, 10) =~= seq![66u8, 79u8, 68u8, 89u8, 46u8, 80u8, 69u8, 69u8,
                75u8, 91u8]);
        }
        let mut r: Vec<u8> = Vec::new();
        r.push(66);
        r.push(79);
        r.push(68);
        r.push(89);
        r.push(91);
        let rest = subvec(&u, 10, u.len());
        append_bytes(&mut r, &rest);
        proof {
            assert(u@.subrange(10, u@.len() as int) =~= u@.skip(10));
            assert(r@ =~= section_answer(section@));
        }
        r
    } else {
        proof {
            let us = upper_seq(section@);
            if us.len() >= 10 && us.subrange(0, 10) == seq![66u8, 79u8, 68u8, 89u8, 46u8, 80u8,
                69u8, 69u8, 75u8, 91u8] {
                assert(u@[0] == 66 && u@[1] == 79 && u@[2] == 68 && u@[3] == 89 && u@[4] == 46
                    && u@[5] == 80 && u@[6] == 69 && u@[7] == 69 && u@[8] == 75 && u@[9] == 91);
            }
        }
        u
    }
}

/// Whether `t` answers the criterion whose expected attribute is `expected`.
fn tok_answers(t: &Vec<u8>, expected: &Vec<u8>) -> (r: bool)
    ensures
        r == (upper_seq(t@) == expected@ || upper_seq(t@) == seq![40u8] + expected@),
{
    let u = to_upper(t);
    if crate::bytes::bytes_eq(&u, expected) {
        true
    } else if u.len() >= 1 && u.len() - 1 == expected.len() && u[0] == 40 {
        let rest = subvec(&u, 1, u.len());
        let r = crate::bytes::bytes_eq(&rest, expected);
        proof {
            if r {
                assert(u@ =~= seq![40u8] + expected@);
            } else {
                if u@ == seq![40u8] + expected@ {
                    assert(u@.subrange(1, u@.len() as int) =~= expected@);
                }
            }
        }
        r
    } else {
        proof {
            if u@ == seq![40u8] + expected@ {
                assert(u@.len() == expected@.len() + 1 && u@[0] == 40);
            }
        }
        false
    }
}

/// Whether some token of the line answers this section criterion, as
/// `line_has_section` gives it.
fn tokens_have_section(toks: &Vec<Vec<u8>>, section: &Vec<u8>) -> (r: bool)
    ensures
        r == line_has_section(views(toks@), section@),
{
    let expected = expected_section(section);
    let mut i: usize = 0;
    while i < toks.len()
        invariant
            i <= toks@.len(),
            expected@ == section_answer(section@),
            forall|x: int| 0 <= x < i ==> !tok_answers_section(#[trigger] views(toks@)[x], section@),
        decreases toks.len() - i,
    {
        if tok_answers(&toks[i], &expected) {
            proof {
                assert(tok_answers_section(views(toks@)[i as int], section@));
            }
            return true;
        }
        i += 1;
    }
    proof {
        if line_has_section(views(toks@), section@) {
            let x = choose|x: int|
                0 <= x < views(toks@).len() && tok_answers_section(#[trigger] views(toks@)[x], section@);
            assert(false);
        }
    }
    false
}

/// Whether a captured key is answered by this untagged FETCH line: a
/// sequence-keyed fetch matches the leading message number, a UID-keyed one
/// the line's `UID n` data item; either way the line must carry the data
/// item answering the key's own section criterion, so that the literal that
/// follows is never cached under a section it does not hold.
pub open spec fn resp_matches_key(k: KeyModel, num: u32, line: Seq<u8>) -> bool {
    &&& if k.by_uid {
        uid_attr(tokens_of(strip_crlf(line))) == Some(k.num)
    } else {
        k.num == num
    }
    &&& line_has_section(tokens_of(strip_crlf(line)), k.section)
}

/// The key of the first pending capture this FETCH data line answers, if any.
pub open spec fn capture_key_of(p: Seq<PendingModel>, num: u32, line: Seq<u8>) -> Option<KeyModel>
    decreases p.len(),
{
    if p.len() == 0 {
        None
    } else {
        match p[0].action {
            OnOkModel::CaptureBody(k) => if resp_matches_key(k, num, line) {
                Some(k)
            } else {
                capture_key_of(p.drop_first(), num, line)
            },
            OnOkModel::InvalidateMailbox(_) => capture_key_of(p.drop_first(), num, line),
            OnOkModel::InvalidateMessages { .. } => capture_key_of(p.drop_first(), num, line),
        }
    }
}

/// Index of the first pending capture this line answers, as `capture_key_of`
/// gives it.
fn find_capture_idx(
    p: &Vec<Pending>,
    num: u32,
    uid_opt: Option<u32>,
    toks: &Vec<Vec<u8>>,
    line: Ghost<Seq<u8>>,
    i: usize,
) -> (r: Option<usize>)
    requires
        i <= p@.len(),
        uid_opt == uid_attr(tokens_of(strip_crlf(line@))),
        views(toks@) == tokens_of(strip_crlf(line@)),
    ensures
        r matches Some(j) ==> i <= j < p@.len() && (pendings_model(p@)[j as int].action matches
            OnOkModel::CaptureBody(k) && resp_matches_key(k, num, line@) && capture_key_of(
            pendings_model(p@).skip(i as int),
            num,
            line@,
        ) == Some(k)),
        r is None ==> capture_key_of(pendings_model(p@).skip(i as int), num, line@) is None,
    decreases p@.len() - i,
{
    let ghost m = pendings_model(p@);
    if i == p.len() {
        proof {
            assert(m.skip(i as int) =~= Seq::<PendingModel>::empty());
        }
        None
    } else {
        proof {
            assert(m.skip(i as int)[0] == m[i as int]);
            assert(m.skip(i as int).drop_first() =~= m.skip(i + 1 as int));
        }
        let hit = match &p[i].action {
            OnOk::CaptureBody(k) => {
                let num_ok = if k.by_uid {
                    match uid_opt {
                        Option::Some(u) => u == k.num,
                        Option::None => false,
                    }
                } else {
                    k.num == num
                };
                num_ok && tokens_have_section(toks, &k.section)
            },
            OnOk::InvalidateMailbox(_) => false,
            OnOk::InvalidateMessages { .. } => false,
        };
        if hit {
            Some(i)
        } else {
            find_capture_idx(p, num, uid_opt, toks, line, i + 1)
        }
    }
}

/// A copy of a vector of message numbers.
fn copy_nums(v: &Vec<u32>) -> (r: Vec<u32>)
    ensures
        r@ == v@,
{
    let mut r: Vec<u32> = Vec::new();
    let mut k: usize = 0;
    while k < v.len()
        invariant
            k <= v@.len(),
            r@ == v@.subrange(0, k as int),
        decreases v.len() - k,
    {
        r.push(v[k]);
        proof {
            assert(r@ =~= v@.subrange(0, k + 1 as int));
        }
        k += 1;
    }
    proof {
        assert(v@.subrange(0, v@.len() as int) =~= v@);
    }
    r
}

/// Remove the cache entries of every listed message of one mailbox, under
/// one addressing mode, whatever their section; everything else stays.
fn invalidate_messages(cache: &mut Cache, mb: &Vec<u8>, nums: &Vec<u32>, by_uid: bool)
    requires
        old(cache).wf(),
    ensures
        final(cache).wf(),
        final(cache).ttl == old(cache).ttl,
        forall|k: KeyModel|
            (k.mailbox == mb@ && k.by_uid == by_uid && nums@.contains(k.num)) ==> lookup(
                final(cache).model(),
                k,
            ) is None,
        forall|k: KeyModel|
            !(k.mailbox == mb@ && k.by_uid == by_uid && nums@.contains(k.num)) ==> lookup(
                final(cache).model(),
                k,
            ) == lookup(old(cache).model(), k),
{
    let mut i: usize = 0;
    while i < nums.len()
        invariant
            i <= nums@.len(),
            cache.wf(),
            cache.ttl == old(cache).ttl,
            forall|x: int, k: KeyModel|
                0 <= x < i && crate::cache::key_of_message(k, mb@, nums@[x], by_uid)
                    ==> lookup(cache.model(), k) is None,
            forall|k: KeyModel|
                (forall|x: int|
                    0 <= x < i ==> !crate::cache::key_of_message(k, mb@, #[trigger] nums@[x], by_uid))
                    ==> lookup(cache.model(), k) == lookup(old(cache).model(), k),
        decreases nums.len() - i,
    {
        cache.invalidate_message(mb, nums[i], by_uid);
        i += 1;
    }
    proof {
        assert forall|k: KeyModel| (k.mailbox == mb@ && k.by_uid == by_uid && nums@.contains(
            k.num,
        )) implies lookup(cache.model(), k) is None by {
            let x = choose|x: int| 0 <= x < nums@.len() && nums@[x] == k.num;
            assert(crate::cache::key_of_message(k, mb@, nums@[x], by_uid));
        }
        assert forall|k: KeyModel| !(k.mailbox == mb@ && k.by_uid == by_uid && nums@.contains(
            k.num,
        )) implies lookup(cache.model(), k) == lookup(old(cache).model(), k) by {
            assert forall|x: int| 0 <= x < nums@.len() implies !crate::cache::key_of_message(
                k,
                mb@,
                #[trigger] nums@[x],
                by_uid,
            ) by {
                if crate::cache::key_of_message(k, mb@, nums@[x], by_uid) {
                    assert(nums@.contains(k.num));
                }
            }
        }
    }
}

/// Apply the interception policy to one complete server line; the line is
/// always relayed to the client exactly as it came.
///
/// An untagged EXPUNGE (solicited or pushed during IDLE) invalidates the
/// selected mailbox. An untagged FETCH data line that announces a literal
/// and answers a pending capture arms the capture for the literal that
/// follows. A tagged completion resolves its pending entry: an OK for a
/// STORE/DELETE/EXPUNGE invalidates the recorded mailbox.
pub fn handle_server_line(
    ctx: &mut SessionCtx,
    cache: &mut Cache,
    line: &Vec<u8>,
    now: u64,
) -> (fwd: Vec<u8>)
    requires
        old(cache).wf(),
    ensures
        final(cache).wf(),
        final(cache).ttl == old(cache).ttl,
        fwd@ == line@,
        classify_resp(line@) matches RespModel::UntaggedExpunge { num } ==> *final(ctx) == *old(
            ctx,
        ) && (match ctx_model(*old(ctx)).selected {
            Option::Some(mb) => (forall|k: KeyModel|
                k.mailbox == mb ==> lookup(final(cache).model(), k) is None) && (forall|
                k: KeyModel,
            |
                k.mailbox != mb ==> lookup(final(cache).model(), k) == lookup(
                    old(cache).model(),
                    k,
                )),
            Option::None => *final(cache) == *old(cache),
        }),
        classify_resp(line@) matches RespModel::UntaggedFetch { num } ==> *final(cache) == *old(
            cache,
        ) && ctx_model(*final(ctx)) == (CtxModel {
            selected: ctx_model(*old(ctx)).selected,
            pending: ctx_model(*old(ctx)).pending,
            idling: ctx_model(*old(ctx)).idling,
            capture: if crate::frame::literal_announce(strip_crlf(line@)) is Some {
                match capture_key_of(ctx_model(*old(ctx)).pending, num, line@) {
                    Option::Some(k) => Some(k),
                    Option::None => ctx_model(*old(ctx)).capture,
                }
            } else {
                ctx_model(*old(ctx)).capture
            },
        }),
        classify_resp(line@) matches RespModel::Tagged { tag, ok } ==> ctx_model(*final(ctx))
            == (CtxModel {
            selected: ctx_model(*old(ctx)).selected,
            pending: remove_pending_model(ctx_model(*old(ctx)).pending, tag),
            idling: ctx_model(*old(ctx)).idling,
            capture: match find_pending(ctx_model(*old(ctx)).pending, tag) {
                Option::Some(p) => match p.action {
                    OnOkModel::CaptureBody(_) => None,
                    OnOkModel::InvalidateMailbox(_) => ctx_model(*old(ctx)).capture,
                    OnOkModel::InvalidateMessages { .. } => ctx_model(*old(ctx)).capture,
                },
                Option::None => ctx_model(*old(ctx)).capture,
            },
        }) && (match find_pending(ctx_model(*old(ctx)).pending, tag) {
            Option::Some(p) => match p.action {
                OnOkModel::InvalidateMailbox(mb) => if ok {
                    (forall|k: KeyModel|
                        k.mailbox == mb ==> lookup(final(cache).model(), k) is None) && (forall|
                        k: KeyModel,
                    |
                        k.mailbox != mb ==> lookup(final(cache).model(), k) == lookup(
                            old(cache).model(),
                            k,
                        ))
                } else {
                    *final(cache) == *old(cache)
                },
                OnOkModel::InvalidateMessages { mailbox: mbx, nums, by_uid } => if ok {
                    (forall|k: KeyModel|
                        (k.mailbox == mbx && k.by_uid == by_uid && nums.contains(k.num))
                            ==> lookup(final(cache).model(), k) is None) && (forall|k: KeyModel|
                        !(k.mailbox == mbx && k.by_uid == by_uid && nums.contains(k.num))
                            ==> lookup(final(cache).model(), k) == lookup(old(cache).model(), k))
                } else {
                    *final(cache) == *old(cache)
                },
                OnOkModel::CaptureBody(_) => *final(cache) == *old(cache),
            },
            Option::None => *final(cache) == *old(cache),
        }),
        classify_resp(line@) is OtherLine ==> *final(cache) == *old(cache) && *final(ctx) == *old(
            ctx,
        ),
{
    let resp = classify_response(line);
    match resp {
        RespLine::UntaggedExpunge { num: _ } => {
            let sel: Option<Vec<u8>> = match &ctx.selected {
                Option::Some(mb) => Some(copy_line(mb)),
                Option::None => None,
            };
            match sel {
                Option::Some(mb) => {
                    cache.invalidate_mailbox(&mb);
                },
                Option::None => {},
            }
            copy_line(line)
        },
        RespLine::UntaggedFetch { num } => {
            let bare = crate::command::strip_line_end(line);
            let ann = crate::frame::read_literal_announce(&bare);
            if ann.is_some() {
                let toks = split_tokens(&bare);
                let uid_opt = scan_uid_attr(&toks, 0);
                proof {
                    assert(views(toks@).skip(0) =~~= views(toks@));
                }
                let found = find_capture_idx(&ctx.pending, num, uid_opt, &toks, Ghost(line@), 0);
                proof {
                    assert(pendings_model(ctx.pending@).skip(0) =~= pendings_model(ctx.pending@));
                }
                match found {
                    Option::Some(j) => {
                        let k = match &ctx.pending[j].action {
                            OnOk::CaptureBody(k) => clone_key(k),
                            // find_capture_idx only ever lands on a capture
                            _ => {
                                proof {
                                    assert(false);
                                }
                                MessageKey {
                                    mailbox: Vec::new(),
                                    num: 0,
                                    by_uid: false,
                                    section: Vec::new(),
                                }
                            },
                        };
                        ctx.capture = Some(k);
                    },
                    Option::None => {},
                }
            }
            proof {
                assert(ctx_model(*ctx) =~~= (CtxModel {
                    selected: ctx_model(*old(ctx)).selected,
                    pending: ctx_model(*old(ctx)).pending,
                    idling: ctx_model(*old(ctx)).idling,
                    capture: ctx_model(*ctx).capture,
                }));
            }
            copy_line(line)
        },
        RespLine::Tagged { tag, ok } => {
            let found = find_pending_idx(&ctx.pending, &tag, 0);
            proof {
                assert(pendings_model(ctx.pending@).skip(0) =~= pendings_model(ctx.pending@));
            }
            match found {
                Option::Some(j) => {
                    let ghost p0 = pendings_model(ctx.pending@);
                    let inv_mb: Option<Vec<u8>> = match &ctx.pending[j].action {
                        OnOk::InvalidateMailbox(mb) => Some(copy_line(mb)),
                        OnOk::CaptureBody(_) => None,
                        OnOk::InvalidateMessages { .. } => None,
                    };
                    let inv_msgs: Option<(Vec<u8>, Vec<u32>, bool)> = match &ctx.pending[j].action
                    {
                        OnOk::InvalidateMessages { mailbox, nums, by_uid } => Some(
                            (copy_line(mailbox), copy_nums(nums), *by_uid),
                        ),
                        OnOk::InvalidateMailbox(_) => None,
                        OnOk::CaptureBody(_) => None,
                    };
                    let is_cap = matches!(&ctx.pending[j].action, OnOk::CaptureBody(_));
                    ctx.pending.remove(j);
                    proof {
                        lemma_find_pending_at(p0, j as int, tag@);
                        lemma_remove_is_remove_pending(p0, j as int, tag@);
                        assert(pendings_model(ctx.pending@) =~~= p0.remove(j as int));
                    }
                    if is_cap {
                        ctx.capture = None;
                    }
                    if ok {
                        match inv_mb {
                            Option::Some(mb) => {
                                cache.invalidate_mailbox(&mb);
                            },
                            Option::None => {},
                        }
                        match inv_msgs {
                            Option::Some((mbx, nums, by_uid)) => {
                                invalidate_messages(cache, &mbx, &nums, by_uid);
                            },
                            Option::None => {},
                        }
                    }
                    proof {
                        assert(ctx_model(*ctx) =~~= (CtxModel {
                            selected: ctx_model(*old(ctx)).selected,
                            pending: remove_pending_model(p0, tag@),
                            idling: ctx_model(*old(ctx)).idling,
                            capture: ctx_model(*ctx).capture,
                        }));
                    }
                },
                Option::None => {
                    proof {
                        lemma_remove_pending_absent(pendings_model(ctx.pending@), tag@);
                    }
                },
            }
            copy_line(line)
        },
        RespLine::OtherLine => copy_line(line),
    }
}

/// Apply the interception policy to one server literal: when a capture is
/// armed the bytes become the cached payload under the armed key; the bytes
/// themselves are always relayed exactly as they came.
pub fn handle_server_literal(
    ctx: &mut SessionCtx,
    cache: &mut Cache,
    chunk: &Vec<u8>,
    now: u64,
) -> (fwd: Vec<u8>)
    requires
        old(cache).wf(),
    ensures
        final(cache).wf(),
        final(cache).ttl == old(cache).ttl,
        fwd@ == chunk@,
        match ctx_model(*old(ctx)).capture {
            Option::Some(k) => lookup(final(cache).model(), k) == Some(
                SlotModel { key: k, payload: chunk@, created_at: now },
            ) && crate::cache::count_key(final(cache).model(), k) == 1 && (forall|k2: KeyModel|
                k2 != k ==> lookup(final(cache).model(), k2) == lookup(old(cache).model(), k2))
                && ctx_model(*final(ctx)) == (CtxModel {
                selected: ctx_model(*old(ctx)).selected,
                pending: ctx_model(*old(ctx)).pending,
                idling: ctx_model(*old(ctx)).idling,
                capture: None::<KeyModel>,
            }),
            Option::None => *final(cache) == *old(cache) && *final(ctx) == *old(ctx),
        },
{
    let cap: Option<MessageKey> = match &ctx.capture {
        Option::Some(k) => Some(clone_key(k)),
        Option::None => None,
    };
    match cap {
        Option::Some(k) => {
            ctx.capture = None;
            cache.put(k, copy_line(chunk), now);
            proof {
                assert(ctx_model(*ctx) =~~= (CtxModel {
                    selected: ctx_model(*old(ctx)).selected,
                    pending: ctx_model(*old(ctx)).pending,
                    idling: ctx_model(*old(ctx)).idling,
                    capture: None::<KeyModel>,
                }));
            }
        },
        Option::None => {},
    }
    copy_line(chunk)
}

} // verus!
