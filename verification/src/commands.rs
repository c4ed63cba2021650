//! The command dispatcher: takes one decoded frame, reads or changes the
//! store, and yields the framed reply bytes, if the command has any.
//! Command words match without regard to letter case.
use vstd::prelude::*;

verus! {

use vstd::string::StrSliceExecFns;
use vstd::string::StringSliceAdditionalSpecFns;
use crate::ascii::{ci_eq, ci_equal, contains_ci, contains_ignore_case};
use crate::dec::{all_digits, dec_of, u64_to_dec, val_of};
use crate::frame::{
    crlf, deep_list, encode_of, lemma_deep_list, null_bulk_spec, FrameSpec, Resp, BULK_MARK, CR,
    LF,
};
use crate::role::Role;
use crate::store::{live_value, Store};

/// The stored snapshot payload a primary serves to a follower on PSYNC,
/// as base64 text: an empty dataset in the snapshot format.
pub const SNAPSHOT_B64: &'static str = "UkVESVMwMDEx+glyZWRpcy12ZXIFNy4yLjD6CnJlZGlzLWJpdHPAQPoFY3RpbWXCbQi8ZfoIdXNlZC1tZW3CsMQQAPoIYW9mLWJhc2XAAP/wbjv+wP9aog==";

/// What base64 text decodes to, when it is valid: a function of the text
/// alone.
pub uninterp spec fn b64_of(s: Seq<char>) -> Option<Seq<u8>>;

/// Relies on base64's standard-alphabet engine (`general_purpose::STANDARD`):
/// decoding is a pure function of the text, and a `Result` tells valid
/// text from invalid.
#[verifier::external_body]
fn b64_decode(s: &str) -> (r: Option<Vec<u8>>)
    ensures
        r is Some <==> b64_of(s@) is Some,
        r matches Some(v) ==> b64_of(s@) == Some(v@),
{
    match base64::Engine::decode(&base64::engine::general_purpose::STANDARD, s) {
        Ok(v) => Some(v),
        Err(_) => None,
    }
}

/// The text a frame carries when it is a string of either kind.
pub open spec fn token_of(f: FrameSpec) -> Option<Seq<u8>> {
    match f {
        FrameSpec::Simple(s) => Some(s),
        FrameSpec::Bulk(s) => Some(s),
        FrameSpec::Array(_) => None,
    }
}

/// Addition capped at the largest representable instant.
pub open spec fn add_sat(a: u64, b: u64) -> u64 {
    if a + b > u64::MAX {
        u64::MAX
    } else {
        (a + b) as u64
    }
}

/// The reply to PING.
pub open spec fn pong_reply() -> Seq<u8> {
    encode_of(FrameSpec::Simple("PONG".spec_bytes()))
}

/// The reply to SET and REPLCONF.
pub open spec fn ok_reply() -> Seq<u8> {
    encode_of(FrameSpec::Simple("OK".spec_bytes()))
}

/// The replication section body: the role line, and for a primary its
/// identifier and offset on lines of their own.
pub open spec fn info_body(role: Role) -> Seq<u8> {
    match role {
        Role::Master { master_replid, master_repl_offset } => "role:master\nmaster_replid:".spec_bytes()
            + master_replid@ + "\nmaster_repl_offset:".spec_bytes() + dec_of(
            master_repl_offset as nat,
        ),
        Role::Slave { .. } => "role:slave".spec_bytes(),
    }
}

/// The composite PSYNC reply: a FULLRESYNC line, then the snapshot under
/// a bulk-style length header with no line break after the payload.
pub open spec fn fullresync_reply(replid: Seq<u8>, payload: Seq<u8>) -> Seq<u8> {
    encode_of(FrameSpec::Simple("FULLRESYNC ".spec_bytes() + replid + " 0".spec_bytes()))
        + seq![BULK_MARK] + dec_of(payload.len()) + crlf() + payload
}

/// The reply to ECHO: the message back as a bulk string.
pub open spec fn echo_reply(items: Seq<FrameSpec>) -> Option<Seq<u8>> {
    if items.len() < 2 {
        None
    } else {
        match token_of(items[1]) {
            Some(msg) => Some(encode_of(FrameSpec::Bulk(msg))),
            None => None,
        }
    }
}

/// The reply to INFO: the replication section when asked for it, byte for
/// byte, and nothing for any other section.
pub open spec fn info_reply(items: Seq<FrameSpec>, role: Role) -> Option<Seq<u8>> {
    if items.len() < 2 {
        None
    } else {
        match token_of(items[1]) {
            Some(section) => if section == "replication".spec_bytes() {
                Some(encode_of(FrameSpec::Bulk(info_body(role))))
            } else {
                None
            },
            None => None,
        }
    }
}

/// The reply to GET: the live value as a bulk string, or the null bulk
/// for a missing or expired key.
pub open spec fn get_reply(
    items: Seq<FrameSpec>,
    m: Map<Seq<u8>, (Seq<u8>, Option<u64>)>,
    now: u64,
) -> Option<Seq<u8>> {
    if items.len() < 2 {
        None
    } else {
        match token_of(items[1]) {
            Some(key) => match live_value(m, key, now) {
                Some(v) => Some(encode_of(FrameSpec::Bulk(v))),
                None => Some(null_bulk_spec()),
            },
            None => None,
        }
    }
}

/// The effect of SET: bind key to value, with a deadline of now plus the
/// PX milliseconds when that option is given, and replace any old
/// binding and deadline. A PX without a readable number changes nothing.
pub open spec fn set_effect(
    items: Seq<FrameSpec>,
    m: Map<Seq<u8>, (Seq<u8>, Option<u64>)>,
    now: u64,
) -> (Map<Seq<u8>, (Seq<u8>, Option<u64>)>, Option<Seq<u8>>) {
    if items.len() < 3 {
        (m, None)
    } else {
        match (token_of(items[1]), token_of(items[2])) {
            (Some(key), Some(value)) => if items.len() == 3 {
                (m.insert(key, (value, None)), Some(ok_reply()))
            } else {
                match token_of(items[3]) {
                    Some(opt) => if ci_eq(opt, "px".spec_bytes()) {
                        if items.len() >= 5 {
                            match token_of(items[4]) {
                                Some(ms) => if ms.len() > 0 && all_digits(ms) && val_of(ms)
                                    <= u64::MAX {
                                    (
                                        m.insert(
                                            key,
                                            (value, Some(add_sat(now, val_of(ms) as u64))),
                                        ),
                                        Some(ok_reply()),
                                    )
                                } else {
                                    (m, None)
                                },
                                None => (m, None),
                            }
                        } else {
                            (m, None)
                        }
                    } else {
                        (m.insert(key, (value, None)), Some(ok_reply()))
                    },
                    None => (m, None),
                }
            },
            _ => (m, None),
        }
    }
}

/// The reply to PSYNC, served by a primary only: the FULLRESYNC line and
/// the decoded snapshot payload.
pub open spec fn psync_reply(role: Role) -> Option<Seq<u8>> {
    match role {
        Role::Master { master_replid, .. } => match b64_of(SNAPSHOT_B64@) {
            Some(p) => Some(fullresync_reply(master_replid@, p)),
            None => None,
        },
        Role::Slave { .. } => None,
    }
}

/// One step of the dispatcher: the store after the frame, and the reply
/// bytes it writes, if any. A frame that is no recognizable command, or a
/// command short of usable arguments, changes nothing and stays silent.
pub open spec fn dispatch_spec(
    f: FrameSpec,
    m: Map<Seq<u8>, (Seq<u8>, Option<u64>)>,
    role: Role,
    now: u64,
) -> (Map<Seq<u8>, (Seq<u8>, Option<u64>)>, Option<Seq<u8>>) {
    match f {
        FrameSpec::Simple(s) => (
            m,
            if contains_ci(s, "ping".spec_bytes()) {
                Some(pong_reply())
            } else {
                None
            },
        ),
        FrameSpec::Bulk(s) => (
            m,
            if contains_ci(s, "ping".spec_bytes()) {
                Some(pong_reply())
            } else {
                None
            },
        ),
        FrameSpec::Array(items) => {
            if items.len() == 0 {
                (m, None)
            } else {
                match token_of(items[0]) {
                    None => (m, None),
                    Some(cmd) => {
                        if ci_eq(cmd, "ping".spec_bytes()) {
                            (m, Some(pong_reply()))
                        } else if ci_eq(cmd, "echo".spec_bytes()) {
                            (m, echo_reply(items))
                        } else if ci_eq(cmd, "info".spec_bytes()) {
                            (m, info_reply(items, role))
                        } else if ci_eq(cmd, "set".spec_bytes()) {
                            set_effect(items, m, now)
                        } else if ci_eq(cmd, "get".spec_bytes()) {
                            (m, get_reply(items, m, now))
                        } else if ci_eq(cmd, "replconf".spec_bytes()) {
                            (m, Some(ok_reply()))
                        } else if ci_eq(cmd, "psync".spec_bytes()) {
                            (m, psync_reply(role))
                        } else {
                            (m, None)
                        }
                    },
                }
            }
        },
    }
}

impl Resp {
    /// The text this frame carries, when it is a string of either kind.
    pub fn get_string(&self) -> (r: Option<Vec<u8>>)
        ensures
            r matches Some(v) ==> token_of(self.deep()) == Some(v@),
            r is None ==> token_of(self.deep()) is None,
    {
        match self {
            Resp::SimpleString(s) => Some(vstd::slice::slice_to_vec(s.as_slice())),
            Resp::BulkString(s) => Some(vstd::slice::slice_to_vec(s.as_slice())),
            Resp::Array(_) => None,
        }
    }
}

/// The PONG reply, framed.
fn pong_bytes() -> (r: Vec<u8>)
    ensures
        r@ == pong_reply(),
{
    Resp::SimpleString(("PONG").as_bytes_vec()).encode()
}

/// The OK reply, framed.
fn ok_bytes() -> (r: Vec<u8>)
    ensures
        r@ == ok_reply(),
{
    Resp::SimpleString(("OK").as_bytes_vec()).encode()
}

/// Addition capped at the largest representable instant.
fn add_sat_exec(a: u64, b: u64) -> (r: u64)
    ensures
        r == add_sat(a, b),
{
    if b > u64::MAX - a {
        u64::MAX
    } else {
        a + b
    }
}

/// The replication section body for this role.
fn info_body_bytes(role: &Role) -> (r: Vec<u8>)
    ensures
        r@ == info_body(*role),
{
    match role {
        Role::Master { master_replid, master_repl_offset } => {
            let mut v = ("role:master\nmaster_replid:").as_bytes_vec();
            let mut id = vstd::slice::slice_to_vec(master_replid.as_slice());
            v.append(&mut id);
            let mut mid = ("\nmaster_repl_offset:").as_bytes_vec();
            v.append(&mut mid);
            let mut off = u64_to_dec(*master_repl_offset);
            v.append(&mut off);
            v
        },
        Role::Slave { .. } => ("role:slave").as_bytes_vec(),
    }
}

/// The PSYNC reply for a primary: FULLRESYNC line, then the snapshot
/// payload under a length header, with no line break after the payload.
fn psync_bytes(role: &Role) -> (r: Option<Vec<u8>>)
    ensures
        r matches Some(v) ==> psync_reply(*role) == Some(v@),
        r is None ==> psync_reply(*role) is None,
{
    match role {
        Role::Master { master_replid, .. } => {
            match b64_decode(SNAPSHOT_B64) {
                Some(payload) => {
                    let mut line = ("FULLRESYNC ").as_bytes_vec();
                    let mut id = vstd::slice::slice_to_vec(master_replid.as_slice());
                    line.append(&mut id);
                    let mut tail = (" 0").as_bytes_vec();
                    line.append(&mut tail);
                    let mut v = Resp::SimpleString(line).encode();
                    v.push(BULK_MARK);
                    let mut len = u64_to_dec(payload.len() as u64);
                    v.append(&mut len);
                    v.push(CR);
                    v.push(LF);
                    let mut body = vstd::slice::slice_to_vec(payload.as_slice());
                    v.append(&mut body);
                    proof {
                        assert(v@ =~= fullresync_reply(master_replid@, payload@));
                    }
                    Some(v)
                },
                None => None,
            }
        },
        Role::Slave { .. } => None,
    }
}

/// Runs one decoded frame against the store and the role: the store is
/// changed exactly as `dispatch_spec` says, and the reply bytes are
/// exactly its reply, absent when the frame deserves none.
pub fn dispatch(frame: &Resp, store: &mut Store, role: &Role, now: u64) -> (reply: Option<
    Vec<u8>,
>)
    requires
        old(store).wf(),
    ensures
        final(store).wf(),
        ({
            let (m2, rep) = dispatch_spec(frame.deep(), old(store)@, *role, now);
            &&& final(store)@ == m2
            &&& (match reply {
                Some(v) => rep == Some(v@),
                None => rep is None,
            })
        }),
{
    match frame {
        Resp::SimpleString(s) => {
            let ping = ("ping").as_bytes_vec();
            if contains_ignore_case(s.as_slice(), ping.as_slice()) {
                Some(pong_bytes())
            } else {
                None
            }
        },
        Resp::BulkString(s) => {
            let ping = ("ping").as_bytes_vec();
            if contains_ignore_case(s.as_slice(), ping.as_slice()) {
                Some(pong_bytes())
            } else {
                None
            }
        },
        Resp::Array(items) => {
            proof {
                lemma_deep_list(items@);
            }
            if items.len() == 0 {
                return None;
            }
            let cmd_opt = items[0].get_string();
            match cmd_opt {
                None => None,
                Some(cmd) => {
                    let c = cmd.as_slice();
                    if ci_equal(c, ("ping").as_bytes_vec().as_slice()) {
                        Some(pong_bytes())
                    } else if ci_equal(c, ("echo").as_bytes_vec().as_slice()) {
                        handle_echo(items)
                    } else if ci_equal(c, ("info").as_bytes_vec().as_slice()) {
                        handle_info(items, role)
                    } else if ci_equal(c, ("set").as_bytes_vec().as_slice()) {
                        handle_set(items, store, now)
                    } else if ci_equal(c, ("get").as_bytes_vec().as_slice()) {
                        handle_get(items, store, now)
                    } else if ci_equal(c, ("replconf").as_bytes_vec().as_slice()) {
                        Some(ok_bytes())
                    } else if ci_equal(c, ("psync").as_bytes_vec().as_slice()) {
                        psync_bytes(role)
                    } else {
                        None
                    }
                },
            }
        },
    }
}

/// ECHO: the message argument back as a bulk string.
fn handle_echo(items: &Vec<Resp>) -> (r: Option<Vec<u8>>)
    ensures
        ({
            let rep = echo_reply(deep_list(items@));
            match r {
                Some(v) => rep == Some(v@),
                None => rep is None,
            }
        }),
{
    proof {
        lemma_deep_list(items@);
    }
    if items.len() < 2 {
        return None;
    }
    match items[1].get_string() {
        Some(msg) => Some(Resp::BulkString(msg).encode()),
        None => None,
    }
}

/// INFO: the replication section, or silence for any other section.
fn handle_info(items: &Vec<Resp>, role: &Role) -> (r: Option<Vec<u8>>)
    ensures
        ({
            let rep = info_reply(deep_list(items@), *role);
            match r {
                Some(v) => rep == Some(v@),
                None => rep is None,
            }
        }),
{
    proof {
        lemma_deep_list(items@);
    }
    if items.len() < 2 {
        return None;
    }
    match items[1].get_string() {
        Some(section) => {
            if crate::ascii::bytes_eq(
                section.as_slice(),
                ("replication").as_bytes_vec().as_slice(),
            ) {
                Some(Resp::BulkString(info_body_bytes(role)).encode())
            } else {
                None
            }
        },
        None => None,
    }
}

/// SET: bind the key, with a deadline when PX is given.
fn handle_set(items: &Vec<Resp>, store: &mut Store, now: u64) -> (r: Option<Vec<u8>>)
    requires
        old(store).wf(),
    ensures
        final(store).wf(),
        ({
            let (m2, rep) = set_effect(deep_list(items@), old(store)@, now);
            &&& final(store)@ == m2
            &&& (match r {
                Some(v) => rep == Some(v@),
                None => rep is None,
            })
        }),
{
    proof {
        lemma_deep_list(items@);
    }
    if items.len() < 3 {
        return None;
    }
    let key_opt = items[1].get_string();
    let val_opt = items[2].get_string();
    let key = match key_opt {
        Some(k) => k,
        None => {
            return None;
        },
    };
    let value = match val_opt {
        Some(v) => v,
        None => {
            return None;
        },
    };
    if items.len() == 3 {
        store.set(key, value, None);
        return Some(ok_bytes());
    }
    let opt_tok = match items[3].get_string() {
        Some(t) => t,
        None => {
            return None;
        },
    };
    if ci_equal(opt_tok.as_slice(), ("px").as_bytes_vec().as_slice()) {
        if items.len() < 5 {
            return None;
        }
        let ms_tok = match items[4].get_string() {
            Some(t) => t,
            None => {
                return None;
            },
        };
        match crate::dec::parse_u64(ms_tok.as_slice()) {
            Some(ms) => {
                let deadline = add_sat_exec(now, ms);
                store.set(key, value, Some(deadline));
                Some(ok_bytes())
            },
            None => None,
        }
    } else {
        store.set(key, value, None);
        Some(ok_bytes())
    }
}

/// GET: the live value, or the null bulk when none is.
fn handle_get(items: &Vec<Resp>, store: &mut Store, now: u64) -> (r: Option<Vec<u8>>)
    requires
        old(store).wf(),
    ensures
        final(store).wf(),
        final(store)@ == old(store)@,
        ({
            let rep = get_reply(deep_list(items@), old(store)@, now);
            match r {
                Some(v) => rep == Some(v@),
                None => rep is None,
            }
        }),
{
    proof {
        lemma_deep_list(items@);
    }
    if items.len() < 2 {
        return None;
    }
    let key = match items[1].get_string() {
        Some(k) => k,
        None => {
            return None;
        },
    };
    match store.get(key.as_slice(), now) {
        Some(v) => Some(Resp::BulkString(v).encode()),
        None => Some(crate::frame::null_bulk()),
    }
}

/// Case-insensitivity of command dispatch: two command frames that
/// differ only in the letter case of the command token drive the
/// dispatcher to the same store and the same reply. The same holds of a
/// bare string frame whose text changes only in case.
#[verifier::rlimit(100)]
#[verifier::spinoff_prover]
pub proof fn lemma_dispatch_case_insensitive(
    t1: Seq<u8>,
    t2: Seq<u8>,
    args: Seq<FrameSpec>,
    m: Map<Seq<u8>, (Seq<u8>, Option<u64>)>,
    role: Role,
    now: u64,
)
    requires
        ci_eq(t1, t2),
    ensures
        dispatch_spec(FrameSpec::Array(seq![FrameSpec::Bulk(t1)] + args), m, role, now)
            == dispatch_spec(FrameSpec::Array(seq![FrameSpec::Bulk(t2)] + args), m, role, now),
        dispatch_spec(FrameSpec::Simple(t1), m, role, now) == dispatch_spec(
            FrameSpec::Simple(t2),
            m,
            role,
            now,
        ),
        dispatch_spec(FrameSpec::Bulk(t1), m, role, now) == dispatch_spec(
            FrameSpec::Bulk(t2),
            m,
            role,
            now,
        ),
{
    crate::ascii::lemma_ci_contains_same(t1, t2, "ping".spec_bytes());
    let i1 = seq![FrameSpec::Bulk(t1)] + args;
    let i2 = seq![FrameSpec::Bulk(t2)] + args;
    assert(i1.len() == i2.len());
    assert(i1[0] == FrameSpec::Bulk(t1));
    assert(i2[0] == FrameSpec::Bulk(t2));
    assert(forall|j: int| 1 <= j < i1.len() ==> #[trigger] i1[j] == args[j - 1]);
    assert(forall|j: int| 1 <= j < i2.len() ==> #[trigger] i2[j] == args[j - 1]);
    crate::ascii::lemma_ci_eq_same(t1, t2, "ping".spec_bytes());
    crate::ascii::lemma_ci_eq_same(t1, t2, "echo".spec_bytes());
    crate::ascii::lemma_ci_eq_same(t1, t2, "info".spec_bytes());
    crate::ascii::lemma_ci_eq_same(t1, t2, "set".spec_bytes());
    crate::ascii::lemma_ci_eq_same(t1, t2, "get".spec_bytes());
    crate::ascii::lemma_ci_eq_same(t1, t2, "replconf".spec_bytes());
    crate::ascii::lemma_ci_eq_same(t1, t2, "psync".spec_bytes());
    if i1.len() >= 2 {
        assert(i1[1] == i2[1]);
    }
    if i1.len() >= 3 {
        assert(i1[2] == i2[2]);
    }
    if i1.len() >= 4 {
        assert(i1[3] == i2[3]);
    }
    if i1.len() >= 5 {
        assert(i1[4] == i2[4]);
    }
    assert(echo_reply(i1) == echo_reply(i2));
    assert(info_reply(i1, role) == info_reply(i2, role));
    assert(set_effect(i1, m, now) == set_effect(i2, m, now));
    assert(get_reply(i1, m, now) == get_reply(i2, m, now));
}

/// The byte values of the command words, read off their literals.
proof fn lemma_token_bytes()
    ensures
        "set".spec_bytes().len() == 3,
        "set".spec_bytes()[0] == 115u8,
        "get".spec_bytes().len() == 3,
        "get".spec_bytes()[0] == 103u8,
        "px".spec_bytes().len() == 2,
        "ping".spec_bytes().len() == 4,
        "echo".spec_bytes().len() == 4,
        "info".spec_bytes().len() == 4,
{
    reveal_strlit("set");
    reveal_strlit("get");
    reveal_strlit("px");
    reveal_strlit("ping");
    reveal_strlit("echo");
    reveal_strlit("info");
    assert(vstd::utf8::is_ascii_chars("set"@));
    assert(vstd::utf8::is_ascii_chars("get"@));
    assert(vstd::utf8::is_ascii_chars("px"@));
    assert(vstd::utf8::is_ascii_chars("ping"@));
    assert(vstd::utf8::is_ascii_chars("echo"@));
    assert(vstd::utf8::is_ascii_chars("info"@));
    vstd::utf8::is_ascii_chars_encode_utf8("set"@);
    vstd::utf8::is_ascii_chars_encode_utf8("get"@);
    vstd::utf8::is_ascii_chars_encode_utf8("px"@);
    vstd::utf8::is_ascii_chars_encode_utf8("ping"@);
    vstd::utf8::is_ascii_chars_encode_utf8("echo"@);
    vstd::utf8::is_ascii_chars_encode_utf8("info"@);
}

/// SET and GET reach their own handlers and no other's: the two words
/// match themselves and nothing else among the commands tried before them.
proof fn lemma_token_routing()
    ensures
        ci_eq("set".spec_bytes(), "set".spec_bytes()),
        ci_eq("get".spec_bytes(), "get".spec_bytes()),
        ci_eq("px".spec_bytes(), "px".spec_bytes()),
        !ci_eq("set".spec_bytes(), "ping".spec_bytes()),
        !ci_eq("set".spec_bytes(), "echo".spec_bytes()),
        !ci_eq("set".spec_bytes(), "info".spec_bytes()),
        !ci_eq("get".spec_bytes(), "ping".spec_bytes()),
        !ci_eq("get".spec_bytes(), "echo".spec_bytes()),
        !ci_eq("get".spec_bytes(), "info".spec_bytes()),
        !ci_eq("get".spec_bytes(), "set".spec_bytes()),
{
    lemma_token_bytes();
    assert(crate::ascii::lower_byte("get".spec_bytes()[0]) == 103);
    assert(crate::ascii::lower_byte("set".spec_bytes()[0]) == 115);
}

/// GET after SET: with no other write in between, a SET of `k` to `v`
/// without expiry answers OK, and a later GET of `k` answers `v`,
/// whatever time has passed.
#[verifier::rlimit(100)]
#[verifier::spinoff_prover]
pub proof fn lemma_get_after_set_commands(
    k: Seq<u8>,
    v: Seq<u8>,
    m: Map<Seq<u8>, (Seq<u8>, Option<u64>)>,
    role: Role,
    t_set: u64,
    t_get: u64,
)
    ensures
        ({
            let set_cmd = FrameSpec::Array(
                seq![
                    FrameSpec::Bulk("set".spec_bytes()),
                    FrameSpec::Bulk(k),
                    FrameSpec::Bulk(v),
                ],
            );
            let get_cmd = FrameSpec::Array(
                seq![FrameSpec::Bulk("get".spec_bytes()), FrameSpec::Bulk(k)],
            );
            let (m1, rep1) = dispatch_spec(set_cmd, m, role, t_set);
            let (m2, rep2) = dispatch_spec(get_cmd, m1, role, t_get);
            &&& rep1 == Some(ok_reply())
            &&& m1 == m.insert(k, (v, None))
            &&& m2 == m1
            &&& rep2 == Some(encode_of(FrameSpec::Bulk(v)))
        }),
{
    lemma_token_routing();
}

/// Expiry: a SET of `k` to `v` with `PX d` at time `t0` answers OK and
/// stores a deadline `d` milliseconds ahead; a GET before that deadline
/// answers `v`, one after it answers the null bulk.
#[verifier::rlimit(100)]
#[verifier::spinoff_prover]
pub proof fn lemma_expiry_commands(
    k: Seq<u8>,
    v: Seq<u8>,
    d: u64,
    m: Map<Seq<u8>, (Seq<u8>, Option<u64>)>,
    role: Role,
    t0: u64,
    t1: u64,
)
    ensures
        ({
            let set_cmd = FrameSpec::Array(
                seq![
                    FrameSpec::Bulk("set".spec_bytes()),
                    FrameSpec::Bulk(k),
                    FrameSpec::Bulk(v),
                    FrameSpec::Bulk("px".spec_bytes()),
                    FrameSpec::Bulk(dec_of(d as nat)),
                ],
            );
            let get_cmd = FrameSpec::Array(
                seq![FrameSpec::Bulk("get".spec_bytes()), FrameSpec::Bulk(k)],
            );
            let (m1, rep1) = dispatch_spec(set_cmd, m, role, t0);
            let (m2, rep2) = dispatch_spec(get_cmd, m1, role, t1);
            &&& rep1 == Some(ok_reply())
            &&& m1 == m.insert(k, (v, Some(add_sat(t0, d))))
            &&& m2 == m1
            &&& (t1 < t0 + d ==> rep2 == Some(encode_of(FrameSpec::Bulk(v))))
            &&& (t1 > t0 + d ==> rep2 == Some(null_bulk_spec()))
        }),
{
    lemma_token_routing();
    crate::dec::lemma_dec_of_canon(d as nat);
    crate::dec::lemma_val_of_dec_of(d as nat);
}

/// Overwrite clears expiry: a SET of `k` with `PX`, followed by a SET of
/// `k` without one, leaves the second value readable at every later time.
#[verifier::rlimit(100)]
#[verifier::spinoff_prover]
pub proof fn lemma_overwrite_clears_expiry_commands(
    k: Seq<u8>,
    v1: Seq<u8>,
    d: u64,
    v2: Seq<u8>,
    m: Map<Seq<u8>, (Seq<u8>, Option<u64>)>,
    role: Role,
    t0: u64,
    t1: u64,
    t2: u64,
)
    ensures
        ({
            let set1 = FrameSpec::Array(
                seq![
                    FrameSpec::Bulk("set".spec_bytes()),
                    FrameSpec::Bulk(k),
                    FrameSpec::Bulk(v1),
                    FrameSpec::Bulk("px".spec_bytes()),
                    FrameSpec::Bulk(dec_of(d as nat)),
                ],
            );
            let set2 = FrameSpec::Array(
                seq![
                    FrameSpec::Bulk("set".spec_bytes()),
                    FrameSpec::Bulk(k),
                    FrameSpec::Bulk(v2),
                ],
            );
            let get_cmd = FrameSpec::Array(
                seq![FrameSpec::Bulk("get".spec_bytes()), FrameSpec::Bulk(k)],
            );
            let (m1, rep1) = dispatch_spec(set1, m, role, t0);
            let (m2, rep2) = dispatch_spec(set2, m1, role, t1);
            let (m3, rep3) = dispatch_spec(get_cmd, m2, role, t2);
            &&& rep1 == Some(ok_reply())
            &&& rep2 == Some(ok_reply())
            &&& m3 == m2
            &&& rep3 == Some(encode_of(FrameSpec::Bulk(v2)))
        }),
{
    lemma_token_routing();
    crate::dec::lemma_dec_of_canon(d as nat);
    crate::dec::lemma_val_of_dec_of(d as nat);
}

} // verus!
