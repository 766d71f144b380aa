//! The command dispatcher: a stateless mapping from one decoded request
//! to one store operation and one reply message.
//!
//! A request is an Array whose first element is a BulkString naming the
//! command, case-insensitively; the rest are positional arguments. A
//! known command with a malformed argument shape earns an Error reply
//! and leaves the connection usable; an unknown name earns the unknown-
//! command Error; a request that is not a command at all is a protocol
//! error, fatal to its connection. Arguments beyond those a command
//! reads are ignored, as the lenient reading of the wire protocol.

use vstd::prelude::*;
use crate::resp::MsgModel;
use crate::resp::ProtocolError;
use crate::resp::Resp;
use crate::resp::dup_bytes;
use crate::resp::is_u64_numeral;
use crate::resp::lemma_list_view_index;
use crate::resp::lemma_wf_items_index;
use crate::resp::line_ok;
use crate::resp::list_view;
use crate::resp::msg_view;
use crate::resp::numeral_val;
use crate::resp::parse_unsigned;
use crate::resp::wf_msg;
use crate::store::EntryModel;
use crate::store::Store;
use crate::store::TtlResult;
use crate::store::live;
use crate::store::sat_add;

verus! {

/// ASCII lower case of one byte.
pub open spec fn lower(c: u8) -> u8 {
    if 65 <= c && c <= 90 {
        (c + 32) as u8
    } else {
        c
    }
}

/// ASCII lower case of a byte sequence.
pub open spec fn lower_seq(s: Seq<u8>) -> Seq<u8> {
    s.map_values(|c: u8| lower(c))
}

/// A message shaped like a command: an Array whose first element is a
/// BulkString.
pub open spec fn command_shape(m: MsgModel) -> bool {
    m is Array && m->Array_0.len() >= 1 && m->Array_0[0] is BulkString
}

/// The command name, folded to lower case.
pub open spec fn cmd_of(m: MsgModel) -> Seq<u8>
    recommends
        command_shape(m),
{
    lower_seq(m->Array_0[0]->BulkString_0)
}

/// The positional arguments.
pub open spec fn args_of(m: MsgModel) -> Seq<MsgModel>
    recommends
        command_shape(m),
{
    m->Array_0.skip(1)
}

/// The reply text `"PONG"`.
pub open spec fn txt_pong() -> Seq<u8> {
    seq![80u8, 79u8, 78u8, 71u8]
}

/// Builds the reply text `"PONG"`.
fn mk_pong() -> (r: Vec<u8>)
    ensures
        r@ == txt_pong(),
        line_ok(r@),
{
    let mut v: Vec<u8> = Vec::new();
    v.push(80);
    v.push(79);
    v.push(78);
    v.push(71);
    proof {
        assert(v@ =~= txt_pong());
        assert(forall|t: int| 0 <= t < v@.len() ==> v@[t] != 13u8);
    }
    v
}

/// The reply text `"OK"`.
pub open spec fn txt_ok() -> Seq<u8> {
    seq![79u8, 75u8]
}

/// Builds the reply text `"OK"`.
fn mk_ok() -> (r: Vec<u8>)
    ensures
        r@ == txt_ok(),
        line_ok(r@),
{
    let mut v: Vec<u8> = Vec::new();
    v.push(79);
    v.push(75);
    proof {
        assert(v@ =~= txt_ok());
        assert(forall|t: int| 0 <= t < v@.len() ==> v@[t] != 13u8);
    }
    v
}

/// The reply text `"unknown command"`.
pub open spec fn txt_unknown() -> Seq<u8> {
    seq![117u8, 110u8, 107u8, 110u8, 111u8, 119u8, 110u8, 32u8, 99u8, 111u8, 109u8, 109u8, 97u8, 110u8, 100u8]
}

/// Builds the reply text `"unknown command"`.
fn mk_unknown() -> (r: Vec<u8>)
    ensures
        r@ == txt_unknown(),
        line_ok(r@),
{
    let mut v: Vec<u8> = Vec::new();
    v.push(117);
    v.push(110);
    v.push(107);
    v.push(110);
    v.push(111);
    v.push(119);
    v.push(110);
    v.push(32);
    v.push(99);
    v.push(111);
    v.push(109);
    v.push(109);
    v.push(97);
    v.push(110);
    v.push(100);
    proof {
        assert(v@ =~= txt_unknown());
        assert(forall|t: int| 0 <= t < v@.len() ==> v@[t] != 13u8);
    }
    v
}

/// The reply text `"Echo requires a message"`.
pub open spec fn txt_echo_err() -> Seq<u8> {
    seq![69u8, 99u8, 104u8, 111u8, 32u8, 114u8, 101u8, 113u8, 117u8, 105u8, 114u8, 101u8, 115u8, 32u8, 97u8, 32u8, 109u8, 101u8, 115u8, 115u8, 97u8, 103u8, 101u8]
}

/// Builds the reply text `"Echo requires a message"`.
fn mk_echo_err() -> (r: Vec<u8>)
    ensures
        r@ == txt_echo_err(),
        line_ok(r@),
{
    let mut v: Vec<u8> = Vec::new();
    v.push(69);
    v.push(99);
    v.push(104);
    v.push(111);
    v.push(32);
    v.push(114);
    v.push(101);
    v.push(113);
    v.push(117);
    v.push(105);
    v.push(114);
    v.push(101);
    v.push(115);
    v.push(32);
    v.push(97);
    v.push(32);
    v.push(109);
    v.push(101);
    v.push(115);
    v.push(115);
    v.push(97);
    v.push(103);
    v.push(101);
    proof {
        assert(v@ =~= txt_echo_err());
        assert(forall|t: int| 0 <= t < v@.len() ==> v@[t] != 13u8);
    }
    v
}

/// The reply text `"Get requires a key"`.
pub open spec fn txt_get_err() -> Seq<u8> {
    seq![71u8, 101u8, 116u8, 32u8, 114u8, 101u8, 113u8, 117u8, 105u8, 114u8, 101u8, 115u8, 32u8, 97u8, 32u8, 107u8, 101u8, 121u8]
}

/// Builds the reply text `"Get requires a key"`.
fn mk_get_err() -> (r: Vec<u8>)
    ensures
        r@ == txt_get_err(),
        line_ok(r@),
{
    let mut v: Vec<u8> = Vec::new();
    v.push(71);
    v.push(101);
    v.push(116);
    v.push(32);
    v.push(114);
    v.push(101);
    v.push(113);
    v.push(117);
    v.push(105);
    v.push(114);
    v.push(101);
    v.push(115);
    v.push(32);
    v.push(97);
    v.push(32);
    v.push(107);
    v.push(101);
    v.push(121);
    proof {
        assert(v@ =~= txt_get_err());
        assert(forall|t: int| 0 <= t < v@.len() ==> v@[t] != 13u8);
    }
    v
}

/// The reply text `"Set requires a key and a value"`.
pub open spec fn txt_set_err() -> Seq<u8> {
    seq![83u8, 101u8, 116u8, 32u8, 114u8, 101u8, 113u8, 117u8, 105u8, 114u8, 101u8, 115u8, 32u8, 97u8, 32u8, 107u8, 101u8, 121u8, 32u8, 97u8, 110u8, 100u8, 32u8, 97u8, 32u8, 118u8, 97u8, 108u8, 117u8, 101u8]
}

/// Builds the reply text `"Set requires a key and a value"`.
fn mk_set_err() -> (r: Vec<u8>)
    ensures
        r@ == txt_set_err(),
        line_ok(r@),
{
    let mut v: Vec<u8> = Vec::new();
    v.push(83);
    v.push(101);
    v.push(116);
    v.push(32);
    v.push(114);
    v.push(101);
    v.push(113);
    v.push(117);
    v.push(105);
    v.push(114);
    v.push(101);
    v.push(115);
    v.push(32);
    v.push(97);
    v.push(32);
    v.push(107);
    v.push(101);
    v.push(121);
    v.push(32);
    v.push(97);
    v.push(110);
    v.push(100);
    v.push(32);
    v.push(97);
    v.push(32);
    v.push(118);
    v.push(97);
    v.push(108);
    v.push(117);
    v.push(101);
    proof {
        assert(v@ =~= txt_set_err());
        assert(forall|t: int| 0 <= t < v@.len() ==> v@[t] != 13u8);
    }
    v
}

/// The reply text `"Set requires a non-negative expiry"`.
pub open spec fn txt_set_exp_err() -> Seq<u8> {
    seq![83u8, 101u8, 116u8, 32u8, 114u8, 101u8, 113u8, 117u8, 105u8, 114u8, 101u8, 115u8, 32u8, 97u8, 32u8, 110u8, 111u8, 110u8, 45u8, 110u8, 101u8, 103u8, 97u8, 116u8, 105u8, 118u8, 101u8, 32u8, 101u8, 120u8, 112u8, 105u8, 114u8, 121u8]
}

/// Builds the reply text `"Set requires a non-negative expiry"`.
fn mk_set_exp_err() -> (r: Vec<u8>)
    ensures
        r@ == txt_set_exp_err(),
        line_ok(r@),
{
    let mut v: Vec<u8> = Vec::new();
    v.push(83);
    v.push(101);
    v.push(116);
    v.push(32);
    v.push(114);
    v.push(101);
    v.push(113);
    v.push(117);
    v.push(105);
    v.push(114);
    v.push(101);
    v.push(115);
    v.push(32);
    v.push(97);
    v.push(32);
    v.push(110);
    v.push(111);
    v.push(110);
    v.push(45);
    v.push(110);
    v.push(101);
    v.push(103);
    v.push(97);
    v.push(116);
    v.push(105);
    v.push(118);
    v.push(101);
    v.push(32);
    v.push(101);
    v.push(120);
    v.push(112);
    v.push(105);
    v.push(114);
    v.push(121);
    proof {
        assert(v@ =~= txt_set_exp_err());
        assert(forall|t: int| 0 <= t < v@.len() ==> v@[t] != 13u8);
    }
    v
}

/// The reply text `"Del requires a key"`.
pub open spec fn txt_del_err() -> Seq<u8> {
    seq![68u8, 101u8, 108u8, 32u8, 114u8, 101u8, 113u8, 117u8, 105u8, 114u8, 101u8, 115u8, 32u8, 97u8, 32u8, 107u8, 101u8, 121u8]
}

/// Builds the reply text `"Del requires a key"`.
fn mk_del_err() -> (r: Vec<u8>)
    ensures
        r@ == txt_del_err(),
        line_ok(r@),
{
    let mut v: Vec<u8> = Vec::new();
    v.push(68);
    v.push(101);
    v.push(108);
    v.push(32);
    v.push(114);
    v.push(101);
    v.push(113);
    v.push(117);
    v.push(105);
    v.push(114);
    v.push(101);
    v.push(115);
    v.push(32);
    v.push(97);
    v.push(32);
    v.push(107);
    v.push(101);
    v.push(121);
    proof {
        assert(v@ =~= txt_del_err());
        assert(forall|t: int| 0 <= t < v@.len() ==> v@[t] != 13u8);
    }
    v
}

/// The reply text `"Exists requires a key"`.
pub open spec fn txt_exists_err() -> Seq<u8> {
    seq![69u8, 120u8, 105u8, 115u8, 116u8, 115u8, 32u8, 114u8, 101u8, 113u8, 117u8, 105u8, 114u8, 101u8, 115u8, 32u8, 97u8, 32u8, 107u8, 101u8, 121u8]
}

/// Builds the reply text `"Exists requires a key"`.
fn mk_exists_err() -> (r: Vec<u8>)
    ensures
        r@ == txt_exists_err(),
        line_ok(r@),
{
    let mut v: Vec<u8> = Vec::new();
    v.push(69);
    v.push(120);
    v.push(105);
    v.push(115);
    v.push(116);
    v.push(115);
    v.push(32);
    v.push(114);
    v.push(101);
    v.push(113);
    v.push(117);
    v.push(105);
    v.push(114);
    v.push(101);
    v.push(115);
    v.push(32);
    v.push(97);
    v.push(32);
    v.push(107);
    v.push(101);
    v.push(121);
    proof {
        assert(v@ =~= txt_exists_err());
        assert(forall|t: int| 0 <= t < v@.len() ==> v@[t] != 13u8);
    }
    v
}

/// The reply text `"Expire requires a key and an amount"`.
pub open spec fn txt_expire_err() -> Seq<u8> {
    seq![69u8, 120u8, 112u8, 105u8, 114u8, 101u8, 32u8, 114u8, 101u8, 113u8, 117u8, 105u8, 114u8, 101u8, 115u8, 32u8, 97u8, 32u8, 107u8, 101u8, 121u8, 32u8, 97u8, 110u8, 100u8, 32u8, 97u8, 110u8, 32u8, 97u8, 109u8, 111u8, 117u8, 110u8, 116u8]
}

/// Builds the reply text `"Expire requires a key and an amount"`.
fn mk_expire_err() -> (r: Vec<u8>)
    ensures
        r@ == txt_expire_err(),
        line_ok(r@),
{
    let mut v: Vec<u8> = Vec::new();
    v.push(69);
    v.push(120);
    v.push(112);
    v.push(105);
    v.push(114);
    v.push(101);
    v.push(32);
    v.push(114);
    v.push(101);
    v.push(113);
    v.push(117);
    v.push(105);
    v.push(114);
    v.push(101);
    v.push(115);
    v.push(32);
    v.push(97);
    v.push(32);
    v.push(107);
    v.push(101);
    v.push(121);
    v.push(32);
    v.push(97);
    v.push(110);
    v.push(100);
    v.push(32);
    v.push(97);
    v.push(110);
    v.push(32);
    v.push(97);
    v.push(109);
    v.push(111);
    v.push(117);
    v.push(110);
    v.push(116);
    proof {
        assert(v@ =~= txt_expire_err());
        assert(forall|t: int| 0 <= t < v@.len() ==> v@[t] != 13u8);
    }
    v
}

/// The reply text `"Expire requires a non-negative amount"`.
pub open spec fn txt_expire_amt_err() -> Seq<u8> {
    seq![69u8, 120u8, 112u8, 105u8, 114u8, 101u8, 32u8, 114u8, 101u8, 113u8, 117u8, 105u8, 114u8, 101u8, 115u8, 32u8, 97u8, 32u8, 110u8, 111u8, 110u8, 45u8, 110u8, 101u8, 103u8, 97u8, 116u8, 105u8, 118u8, 101u8, 32u8, 97u8, 109u8, 111u8, 117u8, 110u8, 116u8]
}

/// Builds the reply text `"Expire requires a non-negative amount"`.
fn mk_expire_amt_err() -> (r: Vec<u8>)
    ensures
        r@ == txt_expire_amt_err(),
        line_ok(r@),
{
    let mut v: Vec<u8> = Vec::new();
    v.push(69);
    v.push(120);
    v.push(112);
    v.push(105);
    v.push(114);
    v.push(101);
    v.push(32);
    v.push(114);
    v.push(101);
    v.push(113);
    v.push(117);
    v.push(105);
    v.push(114);
    v.push(101);
    v.push(115);
    v.push(32);
    v.push(97);
    v.push(32);
    v.push(110);
    v.push(111);
    v.push(110);
    v.push(45);
    v.push(110);
    v.push(101);
    v.push(103);
    v.push(97);
    v.push(116);
    v.push(105);
    v.push(118);
    v.push(101);
    v.push(32);
    v.push(97);
    v.push(109);
    v.push(111);
    v.push(117);
    v.push(110);
    v.push(116);
    proof {
        assert(v@ =~= txt_expire_amt_err());
        assert(forall|t: int| 0 <= t < v@.len() ==> v@[t] != 13u8);
    }
    v
}

/// The reply text `"TTL requires a key"`.
pub open spec fn txt_ttl_err() -> Seq<u8> {
    seq![84u8, 84u8, 76u8, 32u8, 114u8, 101u8, 113u8, 117u8, 105u8, 114u8, 101u8, 115u8, 32u8, 97u8, 32u8, 107u8, 101u8, 121u8]
}

/// Builds the reply text `"TTL requires a key"`.
fn mk_ttl_err() -> (r: Vec<u8>)
    ensures
        r@ == txt_ttl_err(),
        line_ok(r@),
{
    let mut v: Vec<u8> = Vec::new();
    v.push(84);
    v.push(84);
    v.push(76);
    v.push(32);
    v.push(114);
    v.push(101);
    v.push(113);
    v.push(117);
    v.push(105);
    v.push(114);
    v.push(101);
    v.push(115);
    v.push(32);
    v.push(97);
    v.push(32);
    v.push(107);
    v.push(101);
    v.push(121);
    proof {
        assert(v@ =~= txt_ttl_err());
        assert(forall|t: int| 0 <= t < v@.len() ==> v@[t] != 13u8);
    }
    v
}

/// The reply text `"Persist requires a key"`.
pub open spec fn txt_persist_err() -> Seq<u8> {
    seq![80u8, 101u8, 114u8, 115u8, 105u8, 115u8, 116u8, 32u8, 114u8, 101u8, 113u8, 117u8, 105u8, 114u8, 101u8, 115u8, 32u8, 97u8, 32u8, 107u8, 101u8, 121u8]
}

/// Builds the reply text `"Persist requires a key"`.
fn mk_persist_err() -> (r: Vec<u8>)
    ensures
        r@ == txt_persist_err(),
        line_ok(r@),
{
    let mut v: Vec<u8> = Vec::new();
    v.push(80);
    v.push(101);
    v.push(114);
    v.push(115);
    v.push(105);
    v.push(115);
    v.push(116);
    v.push(32);
    v.push(114);
    v.push(101);
    v.push(113);
    v.push(117);
    v.push(105);
    v.push(114);
    v.push(101);
    v.push(115);
    v.push(32);
    v.push(97);
    v.push(32);
    v.push(107);
    v.push(101);
    v.push(121);
    proof {
        assert(v@ =~= txt_persist_err());
        assert(forall|t: int| 0 <= t < v@.len() ==> v@[t] != 13u8);
    }
    v
}

/// The command word `"ping"`, lower case.
pub open spec fn w_ping() -> Seq<u8> {
    seq![112u8, 105u8, 110u8, 103u8]
}

/// The command word `"echo"`, lower case.
pub open spec fn w_echo() -> Seq<u8> {
    seq![101u8, 99u8, 104u8, 111u8]
}

/// The command word `"get"`, lower case.
pub open spec fn w_get() -> Seq<u8> {
    seq![103u8, 101u8, 116u8]
}

/// The command word `"set"`, lower case.
pub open spec fn w_set() -> Seq<u8> {
    seq![115u8, 101u8, 116u8]
}

/// The command word `"del"`, lower case.
pub open spec fn w_del() -> Seq<u8> {
    seq![100u8, 101u8, 108u8]
}

/// The command word `"exists"`, lower case.
pub open spec fn w_exists() -> Seq<u8> {
    seq![101u8, 120u8, 105u8, 115u8, 116u8, 115u8]
}

/// The command word `"expire"`, lower case.
pub open spec fn w_expire() -> Seq<u8> {
    seq![101u8, 120u8, 112u8, 105u8, 114u8, 101u8]
}

/// The command word `"ttl"`, lower case.
pub open spec fn w_ttl() -> Seq<u8> {
    seq![116u8, 116u8, 108u8]
}

/// The command word `"persist"`, lower case.
pub open spec fn w_persist() -> Seq<u8> {
    seq![112u8, 101u8, 114u8, 115u8, 105u8, 115u8, 116u8]
}

/// The command word `"keys"`, lower case.
pub open spec fn w_keys() -> Seq<u8> {
    seq![107u8, 101u8, 121u8, 115u8]
}

/// The command word `"flushdb"`, lower case.
pub open spec fn w_flushdb() -> Seq<u8> {
    seq![102u8, 108u8, 117u8, 115u8, 104u8, 100u8, 98u8]
}

/// The commands the dispatcher knows.
pub enum CommandKind {
    Ping,
    Echo,
    Get,
    SetCmd,
    Del,
    ExistsCmd,
    Expire,
    Ttl,
    Persist,
    Keys,
    FlushDb,
    Unknown,
}

/// Which command a lower-cased name denotes.
pub open spec fn spec_kind(l: Seq<u8>) -> CommandKind {
    if l == w_ping() {
        CommandKind::Ping
    } else if l == w_echo() {
        CommandKind::Echo
    } else if l == w_get() {
        CommandKind::Get
    } else if l == w_set() {
        CommandKind::SetCmd
    } else if l == w_del() {
        CommandKind::Del
    } else if l == w_exists() {
        CommandKind::ExistsCmd
    } else if l == w_expire() {
        CommandKind::Expire
    } else if l == w_ttl() {
        CommandKind::Ttl
    } else if l == w_persist() {
        CommandKind::Persist
    } else if l == w_keys() {
        CommandKind::Keys
    } else if l == w_flushdb() {
        CommandKind::FlushDb
    } else {
        CommandKind::Unknown
    }
}

/// ASCII lower case of one byte, executably.
fn low(c: u8) -> (r: u8)
    ensures
        r == lower(c),
{
    if c >= 65 && c <= 90 {
        c + 32
    } else {
        c
    }
}

/// Folds a command name to lower case.
fn lower_vec(name: &Vec<u8>) -> (r: Vec<u8>)
    ensures
        r@ == lower_seq(name@),
{
    let mut out: Vec<u8> = Vec::new();
    let mut i: usize = 0;
    while i < name.len()
        invariant
            i <= name@.len(),
            out@.len() == i,
            forall|t: int| 0 <= t < i ==> out@[t] == lower(name@[t]),
        decreases name@.len() - i,
    {
        out.push(low(name[i]));
        i = i + 1;
    }
    assert(out@ =~= lower_seq(name@));
    out
}

/// Recognises a command name, case-insensitively.
fn command_kind(name: &Vec<u8>) -> (k: CommandKind)
    ensures
        k == spec_kind(lower_seq(name@)),
{
    let l = lower_vec(name);
    let n = l.len();
    if n == 4 && l[0] == 112 && l[1] == 105 && l[2] == 110 && l[3] == 103 {
        assert(l@ =~= w_ping());
        CommandKind::Ping
    } else if n == 4 && l[0] == 101 && l[1] == 99 && l[2] == 104 && l[3] == 111 {
        assert(l@ =~= w_echo());
        CommandKind::Echo
    } else if n == 3 && l[0] == 103 && l[1] == 101 && l[2] == 116 {
        assert(l@ =~= w_get());
        CommandKind::Get
    } else if n == 3 && l[0] == 115 && l[1] == 101 && l[2] == 116 {
        assert(l@ =~= w_set());
        CommandKind::SetCmd
    } else if n == 3 && l[0] == 100 && l[1] == 101 && l[2] == 108 {
        assert(l@ =~= w_del());
        CommandKind::Del
    } else if n == 6 && l[0] == 101 && l[1] == 120 && l[2] == 105 && l[3] == 115 && l[4] == 116
        && l[5] == 115 {
        assert(l@ =~= w_exists());
        CommandKind::ExistsCmd
    } else if n == 6 && l[0] == 101 && l[1] == 120 && l[2] == 112 && l[3] == 105 && l[4] == 114
        && l[5] == 101 {
        assert(l@ =~= w_expire());
        CommandKind::Expire
    } else if n == 3 && l[0] == 116 && l[1] == 116 && l[2] == 108 {
        assert(l@ =~= w_ttl());
        CommandKind::Ttl
    } else if n == 7 && l[0] == 112 && l[1] == 101 && l[2] == 114 && l[3] == 115 && l[4] == 105
        && l[5] == 115 && l[6] == 116 {
        assert(l@ =~= w_persist());
        CommandKind::Persist
    } else if n == 4 && l[0] == 107 && l[1] == 101 && l[2] == 121 && l[3] == 115 {
        assert(l@ =~= w_keys());
        CommandKind::Keys
    } else if n == 7 && l[0] == 102 && l[1] == 108 && l[2] == 117 && l[3] == 115 && l[4] == 104
        && l[5] == 100 && l[6] == 98 {
        assert(l@ =~= w_flushdb());
        CommandKind::FlushDb
    } else {
        CommandKind::Unknown
    }
}

/// The meaning of an upsert command: the two accepted argument shapes,
/// their store effect and their replies.
pub open spec fn set_post(
    args: Seq<MsgModel>,
    s0: Map<Seq<u8>, EntryModel>,
    s1: Map<Seq<u8>, EntryModel>,
    now: u64,
    r: MsgModel,
) -> bool {
    if args.len() == 2 && args[0] is BulkString && args[1] is BulkString {
        s1 == s0.insert(
            args[0]->BulkString_0,
            EntryModel { value: args[1]->BulkString_0, deadline: Option::None },
        ) && r == MsgModel::SimpleString(txt_ok())
    } else if args.len() == 4 && args[0] is BulkString && args[1] is BulkString
        && args[2] is BulkString && args[3] is BulkString {
        let secs = args[3]->BulkString_0;
        if is_u64_numeral(secs) {
            s1 == s0.insert(
                args[0]->BulkString_0,
                EntryModel {
                    value: args[1]->BulkString_0,
                    deadline: Option::Some(sat_add(now, numeral_val(secs) as u64)),
                },
            ) && r == MsgModel::SimpleString(txt_ok())
        } else {
            s1 == s0 && r == MsgModel::Error(txt_set_exp_err())
        }
    } else {
        s1 == s0 && r == MsgModel::Error(txt_set_err())
    }
}

/// The meaning of a deadline-setting command.
pub open spec fn expire_post(
    args: Seq<MsgModel>,
    s0: Map<Seq<u8>, EntryModel>,
    s1: Map<Seq<u8>, EntryModel>,
    now: u64,
    r: MsgModel,
) -> bool {
    if args.len() >= 2 && args[0] is BulkString && args[1] is BulkString {
        let k = args[0]->BulkString_0;
        let secs = args[1]->BulkString_0;
        if is_u64_numeral(secs) {
            if live(s0, k, now) {
                s1 == s0.insert(
                    k,
                    EntryModel {
                        value: s0[k].value,
                        deadline: Option::Some(sat_add(now, numeral_val(secs) as u64)),
                    },
                ) && r == MsgModel::Integer(1)
            } else {
                s1 == s0 && r == MsgModel::Integer(0)
            }
        } else {
            s1 == s0 && r == MsgModel::Error(txt_expire_amt_err())
        }
    } else {
        s1 == s0 && r == MsgModel::Error(txt_expire_err())
    }
}

/// The integer a deadline query's reply carries: the remaining whole
/// seconds capped at the wire's signed width, or -1 for a key with no
/// deadline, or one missing or expired.
pub open spec fn ttl_reply(s0: Map<Seq<u8>, EntryModel>, k: Seq<u8>, now: u64) -> int {
    if !live(s0, k, now) {
        -1
    } else {
        match s0[k].deadline {
            Option::Some(d) => if d - now > i64::MAX {
                i64::MAX as int
            } else {
                d - now
            },
            Option::None => -1,
        }
    }
}

/// A key-listing reply: an Array of BulkStrings naming every live key
/// exactly once, in no promised order.
pub open spec fn keys_reply(s0: Map<Seq<u8>, EntryModel>, now: u64, r: MsgModel) -> bool {
    &&& r is Array
    &&& forall|t: int|
        0 <= t < r->Array_0.len() ==> (#[trigger] r->Array_0[t]) is BulkString && live(
            s0,
            r->Array_0[t]->BulkString_0,
            now,
        )
    &&& forall|k: Seq<u8>|
        live(s0, k, now) ==> exists|t: int|
            0 <= t < r->Array_0.len() && #[trigger] r->Array_0[t] == MsgModel::BulkString(k)
    &&& forall|t1: int, t2: int|
        #![trigger r->Array_0[t1], r->Array_0[t2]]
        0 <= t1 < t2 < r->Array_0.len() ==> r->Array_0[t1] != r->Array_0[t2]
}

/// The meaning of one command: the reply it earns and the store it
/// leaves behind.
pub open spec fn dispatch_post(
    m: MsgModel,
    s0: Map<Seq<u8>, EntryModel>,
    s1: Map<Seq<u8>, EntryModel>,
    now: u64,
    r: MsgModel,
) -> bool
    recommends
        command_shape(m),
{
    let args = args_of(m);
    match spec_kind(cmd_of(m)) {
        CommandKind::Ping => r == MsgModel::SimpleString(txt_pong()) && s1 == s0,
        CommandKind::Echo => s1 == s0 && if args.len() >= 1 {
            r == args[0]
        } else {
            r == MsgModel::Error(txt_echo_err())
        },
        CommandKind::Get => s1 == s0 && if args.len() >= 1 && args[0] is BulkString {
            if live(s0, args[0]->BulkString_0, now) {
                r == MsgModel::BulkString(s0[args[0]->BulkString_0].value)
            } else {
                r == MsgModel::Null
            }
        } else {
            r == MsgModel::Error(txt_get_err())
        },
        CommandKind::SetCmd => set_post(args, s0, s1, now, r),
        CommandKind::Del => if args.len() >= 1 && args[0] is BulkString {
            s1 == s0.remove(args[0]->BulkString_0) && r == MsgModel::SimpleString(txt_ok())
        } else {
            s1 == s0 && r == MsgModel::Error(txt_del_err())
        },
        CommandKind::ExistsCmd => s1 == s0 && if args.len() >= 1 && args[0] is BulkString {
            r == MsgModel::Integer(
                if live(s0, args[0]->BulkString_0, now) {
                    1int
                } else {
                    0int
                },
            )
        } else {
            r == MsgModel::Error(txt_exists_err())
        },
        CommandKind::Expire => expire_post(args, s0, s1, now, r),
        CommandKind::Ttl => s1 == s0 && if args.len() >= 1 && args[0] is BulkString {
            r == MsgModel::Integer(ttl_reply(s0, args[0]->BulkString_0, now))
        } else {
            r == MsgModel::Error(txt_ttl_err())
        },
        CommandKind::Persist => if args.len() >= 1 && args[0] is BulkString {
            let k = args[0]->BulkString_0;
            let ok = live(s0, k, now) && s0[k].deadline is Some;
            (if ok {
                s1 == s0.insert(k, EntryModel { value: s0[k].value, deadline: Option::None })
            } else {
                s1 == s0
            }) && r == MsgModel::Integer(
                if ok {
                    1int
                } else {
                    0int
                },
            )
        } else {
            s1 == s0 && r == MsgModel::Error(txt_persist_err())
        },
        CommandKind::Keys => s1 == s0 && keys_reply(s0, now, r),
        CommandKind::FlushDb => s1 == Map::<Seq<u8>, EntryModel>::empty() && r
            == MsgModel::SimpleString(txt_ok()),
        CommandKind::Unknown => s1 == s0 && r == MsgModel::Error(txt_unknown()),
    }
}

/// Executes one decoded request against the store and builds the reply.
/// A request that is not a command at all is refused as a protocol
/// error; every other outcome, argument-shape errors included, is a
/// well-formed reply message, so the connection stays usable.
#[verifier::loop_isolation(false)]
#[verifier::rlimit(60)]
pub fn dispatch(store: &mut Store, msg: &Resp, now: u64) -> (r: Result<Resp, ProtocolError>)
    requires
        old(store).wf(),
        wf_msg(msg@),
    ensures
        final(store).wf(),
        match r {
            Result::Ok(reply) => command_shape(msg@) && wf_msg(reply@) && dispatch_post(
                msg@,
                old(store)@,
                final(store)@,
                now,
                reply@,
            ),
            Result::Err(_) => !command_shape(msg@) && final(store)@ == old(store)@,
        },
{
    let (name, args) = match msg.to_command() {
        Result::Err(e) => {
            return Result::Err(e);
        },
        Result::Ok(p) => p,
    };
    let ghost gargs = args_of(msg@);
    proof {
        lemma_list_view_index(args@, 0);
        lemma_wf_items_index(msg@->Array_0, 0);
        assert(cmd_of(msg@) == lower_seq(name@));
        assert forall|t: int| 0 <= t < args@.len() implies #[trigger] msg_view(args@[t])
            == gargs[t] && wf_msg(gargs[t]) by {
            assert(list_view(args@, 0)[t] == msg_view(args@[t]));
            assert(gargs[t] == msg@->Array_0[t + 1]);
        }
        assert(args@.len() == gargs.len());
    }
    match command_kind(&name) {
        CommandKind::Ping => Result::Ok(Resp::SimpleString(mk_pong())),
        CommandKind::Echo => {
            if args.len() >= 1 {
                Result::Ok(args[0].clone())
            } else {
                Result::Ok(Resp::Error(mk_echo_err()))
            }
        },
        CommandKind::Get => {
            if args.len() >= 1 {
                match &args[0] {
                    Resp::BulkString(k) => {
                        match store.get(k, now) {
                            Option::Some(v) => Result::Ok(Resp::BulkString(v)),
                            Option::None => Result::Ok(Resp::Null),
                        }
                    },
                    _ => Result::Ok(Resp::Error(mk_get_err())),
                }
            } else {
                Result::Ok(Resp::Error(mk_get_err()))
            }
        },
        CommandKind::SetCmd => {
            if args.len() == 2 {
                match (&args[0], &args[1]) {
                    (Resp::BulkString(k), Resp::BulkString(v)) => {
                        store.set(dup_bytes(k), dup_bytes(v));
                        Result::Ok(Resp::SimpleString(mk_ok()))
                    },
                    _ => Result::Ok(Resp::Error(mk_set_err())),
                }
            } else if args.len() == 4 {
                match (&args[0], &args[1], &args[2], &args[3]) {
                    (
                        Resp::BulkString(k),
                        Resp::BulkString(v),
                        Resp::BulkString(_),
                        Resp::BulkString(secs),
                    ) => {
                        match parse_unsigned(secs) {
                            Result::Ok(s) => {
                                store.set_with_expiry(dup_bytes(k), dup_bytes(v), s, now);
                                Result::Ok(Resp::SimpleString(mk_ok()))
                            },
                            Result::Err(_) => Result::Ok(Resp::Error(mk_set_exp_err())),
                        }
                    },
                    _ => Result::Ok(Resp::Error(mk_set_err())),
                }
            } else {
                Result::Ok(Resp::Error(mk_set_err()))
            }
        },
        CommandKind::Del => {
            if args.len() >= 1 {
                match &args[0] {
                    Resp::BulkString(k) => {
                        store.del(k);
                        Result::Ok(Resp::SimpleString(mk_ok()))
                    },
                    _ => Result::Ok(Resp::Error(mk_del_err())),
                }
            } else {
                Result::Ok(Resp::Error(mk_del_err()))
            }
        },
        CommandKind::ExistsCmd => {
            if args.len() >= 1 {
                match &args[0] {
                    Resp::BulkString(k) => {
                        if store.key_exists(k, now) {
                            Result::Ok(Resp::Integer(1))
                        } else {
                            Result::Ok(Resp::Integer(0))
                        }
                    },
                    _ => Result::Ok(Resp::Error(mk_exists_err())),
                }
            } else {
                Result::Ok(Resp::Error(mk_exists_err()))
            }
        },
        CommandKind::Expire => {
            if args.len() >= 2 {
                match (&args[0], &args[1]) {
                    (Resp::BulkString(k), Resp::BulkString(secs)) => {
                        match parse_unsigned(secs) {
                            Result::Ok(s) => {
                                if store.expire(k, s, now) {
                                    Result::Ok(Resp::Integer(1))
                                } else {
                                    Result::Ok(Resp::Integer(0))
                                }
                            },
                            Result::Err(_) => Result::Ok(Resp::Error(mk_expire_amt_err())),
                        }
                    },
                    _ => Result::Ok(Resp::Error(mk_expire_err())),
                }
            } else {
                Result::Ok(Resp::Error(mk_expire_err()))
            }
        },
        CommandKind::Ttl => {
            if args.len() >= 1 {
                match &args[0] {
                    Resp::BulkString(k) => {
                        match store.ttl(k, now) {
                            TtlResult::Remaining(s) => {
                                let v: i64 = if s > i64::MAX as u64 {
                                    i64::MAX
                                } else {
                                    s as i64
                                };
                                Result::Ok(Resp::Integer(v))
                            },
                            TtlResult::NoExpiry => Result::Ok(Resp::Integer(-1)),
                            TtlResult::Absent => Result::Ok(Resp::Integer(-1)),
                        }
                    },
                    _ => Result::Ok(Resp::Error(mk_ttl_err())),
                }
            } else {
                Result::Ok(Resp::Error(mk_ttl_err()))
            }
        },
        CommandKind::Persist => {
            if args.len() >= 1 {
                match &args[0] {
                    Resp::BulkString(k) => {
                        if store.persist(k, now) {
                            Result::Ok(Resp::Integer(1))
                        } else {
                            Result::Ok(Resp::Integer(0))
                        }
                    },
                    _ => Result::Ok(Resp::Error(mk_persist_err())),
                }
            } else {
                Result::Ok(Resp::Error(mk_persist_err()))
            }
        },
        CommandKind::Keys => {
            let ks = store.keys(now);
            let mut elems: Vec<Resp> = Vec::new();
            let mut i: usize = 0;
            while i < ks.len()
                invariant
                    i <= ks@.len(),
                    elems@.len() == i,
                    forall|t: int|
                        0 <= t < i ==> #[trigger] msg_view(elems@[t]) == MsgModel::BulkString(
                            (ks@[t])@,
                        ),
                decreases ks@.len() - i,
            {
                elems.push(Resp::BulkString(dup_bytes(&ks[i])));
                i = i + 1;
            }
            let reply = Resp::Array(elems);
            proof {
                lemma_list_view_index(elems@, 0);
                let models = list_view(elems@, 0);
                assert forall|k: Seq<u8>| live(store@, k, now) implies exists|t: int|
                    0 <= t < models.len() && #[trigger] models[t] == MsgModel::BulkString(k) by {
                    let t0 = choose|t: int| 0 <= t < ks@.len() && (#[trigger] ks@[t])@ == k;
                    assert(models[t0] == MsgModel::BulkString(k));
                }
                lemma_wf_items_index(models, 0);
                assert(keys_reply(store@, now, reply@));
                assert(wf_msg(reply@));
            }
            Result::Ok(reply)
        },
        CommandKind::FlushDb => {
            store.flush();
            Result::Ok(Resp::SimpleString(mk_ok()))
        },
        CommandKind::Unknown => Result::Ok(Resp::Error(mk_unknown())),
    }
}

} // verus!
