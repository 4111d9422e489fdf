//! The log-structured storage engine: one record per line in an append-only
//! segment file, an in-memory index from key to the position of its latest
//! `Set` record, rotation of the active segment, and compaction of sealed
//! segments.
//!
//! All decisions of the engine are made here; reading directories, seeking in
//! files and appending bytes are left to the caller, which hands file text in
//! and carries the returned text out.

use vstd::prelude::*;

use crate::codec::blen;
use crate::error::KvsError;
use crate::strmap::kv_map;
use crate::strmap::StrMap;
use crate::codec::esc;
use crate::codec::esc_char;
use crate::codec::escape;
use crate::codec::lemma_concat_parts;
use crate::codec::lemma_quoted_prefix_intro;
use crate::codec::match_at;
use crate::codec::parse_string;
use crate::codec::quoted_prefix;

verus! {

/// One record of a segment: either a write of a value or a removal.
#[derive(Debug, PartialEq)]
pub enum Op {
    Put { key: String, value: String },
    Rm { key: String },
}

/// The mathematical form of a record.
pub enum OpModel {
    Put { key: Seq<char>, value: Seq<char> },
    Rm { key: Seq<char> },
}

impl View for Op {
    type V = OpModel;

    open spec fn view(&self) -> OpModel {
        match self {
            Op::Put { key, value } => OpModel::Put { key: key@, value: value@ },
            Op::Rm { key } => OpModel::Rm { key: key@ },
        }
    }
}

/// The canonical one-line text of a record, without its newline.
pub open spec fn enc_op(op: OpModel) -> Seq<char> {
    match op {
        OpModel::Put { key, value } => "{\"Set\":{\"key\":\""@ + esc(key) + "\",\"value\":\""@
            + esc(value) + "\"}}"@,
        OpModel::Rm { key } => "{\"Rm\":{\"key\":\""@ + esc(key) + "\"}}"@,
    }
}

/// Write a record as its canonical one-line text.
pub fn encode_op(op: &Op) -> (r: String)
    ensures
        r@ == enc_op(op@),
{
    match op {
        Op::Put { key, value } => {
            let mut r = String::from_str("{\"Set\":{\"key\":\"");
            let ek = escape(key.as_str());
            r.append(ek.as_str());
            r.append("\",\"value\":\"");
            let ev = escape(value.as_str());
            r.append(ev.as_str());
            r.append("\"}}");
            r
        }
        Op::Rm { key } => {
            let mut r = String::from_str("{\"Rm\":{\"key\":\"");
            let ek = escape(key.as_str());
            r.append(ek.as_str());
            r.append("\"}}");
            r
        }
    }
}

/// How the text of a `Set` record splits into its parts.
pub proof fn lemma_set_parts(k: Seq<char>, v: Seq<char>, w: Seq<char>)
    requires
        w == enc_op(OpModel::Put { key: k, value: v }),
    ensures
        w.len() == 29 + esc(k).len() + esc(v).len(),
        w.take(15) == "{\"Set\":{\"key\":\""@,
        w.skip(15) == esc(k) + seq!['"'] + (",\"value\":\""@ + (esc(v) + seq!['"'] + "}}"@)),
        w.subrange(15, 16 + esc(k).len() as int) == esc(k) + seq!['"'],
        w.subrange(16 + esc(k).len() as int, 26 + esc(k).len() as int) == ",\"value\":\""@,
        w.skip(26 + esc(k).len() as int) == esc(v) + seq!['"'] + "}}"@,
        w.subrange(26 + esc(k).len() as int, 27 + esc(k).len() as int + esc(v).len() as int)
            == esc(v) + seq!['"'],
        w.subrange(27 + esc(k).len() as int + esc(v).len() as int, w.len() as int) == "}}"@,
{
    reveal_strlit("{\"Set\":{\"key\":\"");
    reveal_strlit("\",\"value\":\"");
    reveal_strlit(",\"value\":\"");
    reveal_strlit("\"}}");
    reveal_strlit("}}");
    assert("{\"Set\":{\"key\":\""@.len() == 15);
    assert("\",\"value\":\""@.len() == 11);
    assert("\"}}"@.len() == 3);
    assert("\",\"value\":\""@ =~= seq!['"'] + ",\"value\":\""@);
    assert("\"}}"@ =~= seq!['"'] + "}}"@);
    let a = "{\"Set\":{\"key\":\""@;
    let b2 = ",\"value\":\""@;
    let c2 = "}}"@;
    assert(w =~= a + (esc(k) + seq!['"'] + (b2 + (esc(v) + seq!['"'] + c2))));
    lemma_concat_parts(a, esc(k) + seq!['"'] + (b2 + (esc(v) + seq!['"'] + c2)), w);
    assert(w.subrange(15, 16 + esc(k).len() as int) =~= esc(k) + seq!['"']);
    assert(w.subrange(16 + esc(k).len() as int, 26 + esc(k).len() as int) =~= b2);
    assert(w.skip(26 + esc(k).len() as int) =~= esc(v) + seq!['"'] + c2);
    assert(w.subrange(26 + esc(k).len() as int, 27 + esc(k).len() as int + esc(v).len() as int)
        =~= esc(v) + seq!['"']);
    assert(w.subrange(27 + esc(k).len() as int + esc(v).len() as int, w.len() as int) =~= c2);
}

/// How the text of an `Rm` record splits into its parts.
pub proof fn lemma_rm_parts(k: Seq<char>, w: Seq<char>)
    requires
        w == enc_op(OpModel::Rm { key: k }),
    ensures
        w.len() == 17 + esc(k).len(),
        w.take(14) == "{\"Rm\":{\"key\":\""@,
        w.skip(14) == esc(k) + seq!['"'] + "}}"@,
        w.subrange(14, 15 + esc(k).len() as int) == esc(k) + seq!['"'],
        w.subrange(15 + esc(k).len() as int, w.len() as int) == "}}"@,
{
    reveal_strlit("{\"Rm\":{\"key\":\"");
    reveal_strlit("\"}}");
    reveal_strlit("}}");
    assert("{\"Rm\":{\"key\":\""@.len() == 14);
    assert("\"}}"@ =~= seq!['"'] + "}}"@);
    let a = "{\"Rm\":{\"key\":\""@;
    let c2 = "}}"@;
    assert(w =~= a + (esc(k) + seq!['"'] + c2));
    lemma_concat_parts(a, esc(k) + seq!['"'] + c2, w);
    assert(w.subrange(14, 15 + esc(k).len() as int) =~= esc(k) + seq!['"']);
    assert(w.subrange(15 + esc(k).len() as int, w.len() as int) =~= c2);
}

/// Read a record back from its one-line text.  Succeeds exactly on the
/// canonical text of some record, and then returns that record.
pub fn decode_op(s: &str) -> (r: Option<Op>)
    ensures
        match r {
            Some(op) => s@ == enc_op(op@) && (forall|op2: OpModel|
                s@ == #[trigger] enc_op(op2) ==> op2 == op@),
            None => forall|op2: OpModel| s@ != #[trigger] enc_op(op2),
        },
{
    let n = s.unicode_len();
    proof {
        reveal_strlit("{\"Set\":{\"key\":\"");
        reveal_strlit("{\"Rm\":{\"key\":\"");
        reveal_strlit(",\"value\":\"");
        reveal_strlit("}}");
    }
    if match_at(s, 0, "{\"Set\":{\"key\":\"") {
        match parse_string(s, 15) {
            Some((key, e1)) => {
                proof {
                    assert(s@.subrange(15, e1 as int) == esc(key@) + seq!['"']);
                    assert((esc(key@) + seq!['"']).len() == esc(key@).len() + 1);
                    assert(e1 - 15 == esc(key@).len() + 1);
                    assert forall|op2: OpModel| s@ == #[trigger] enc_op(op2) implies (op2 matches
                        OpModel::Put { key: k2, value: v2 } && k2 == key@) by {
                        lemma_op2_is_put(s@, op2, key@);
                    }
                }
                if match_at(s, e1, ",\"value\":\"") {
                    match parse_string(s, e1 + 10) {
                        Some((value, e2)) => {
                            proof {
                                assert(s@.subrange(e1 as int + 10, e2 as int) == esc(value@)
                                    + seq!['"']);
                                assert((esc(value@) + seq!['"']).len() == esc(value@).len() + 1);
                                assert(e2 - (e1 + 10) == esc(value@).len() + 1);
                            }
                            let done = match_at(s, e2, "}}");
                            if done && e2 + 2 == n {
                                proof {
                                    let w = s@;
                                    let om = OpModel::Put { key: key@, value: value@ };
                                    assert(w =~= w.subrange(0, 15) + w.subrange(15, e1 as int)
                                        + w.subrange(e1 as int, e1 as int + 10) + w.subrange(
                                        e1 as int + 10,
                                        e2 as int,
                                    ) + w.subrange(e2 as int, n as int));
                                    assert(enc_op(om) =~= "{\"Set\":{\"key\":\""@ + (esc(key@)
                                        + seq!['"']) + ",\"value\":\""@ + (esc(value@)
                                        + seq!['"']) + "}}"@) by {
                                        reveal_strlit("\",\"value\":\"");
                                        reveal_strlit("\"}}");
                                        assert("\",\"value\":\""@ =~= seq!['"']
                                            + ",\"value\":\""@);
                                        assert("\"}}"@ =~= seq!['"'] + "}}"@);
                                    }
                                    assert(w == enc_op(om));
                                    assert forall|op2: OpModel| s@ == #[trigger] enc_op(op2)
                                        implies op2 == om by {
                                        lemma_op2_is_put(s@, op2, key@);
                                        let v2 = op2->Put_value;
                                        lemma_set_parts(key@, v2, s@);
                                        lemma_quoted_prefix_intro(
                                            v2,
                                            "}}"@,
                                            s@.skip(e1 as int + 10),
                                        );
                                    }
                                }
                                return Some(Op::Put { key, value });
                            } else {
                                proof {
                                    assert forall|op2: OpModel| s@ != #[trigger] enc_op(op2) by {
                                        if s@ == enc_op(op2) {
                                            lemma_op2_is_put(s@, op2, key@);
                                            let v2 = op2->Put_value;
                                            lemma_set_parts(key@, v2, s@);
                                            lemma_quoted_prefix_intro(
                                                v2,
                                                "}}"@,
                                                s@.skip(e1 as int + 10),
                                            );
                                            assert(v2 == value@);
                                            assert(s@.len() == e2 + 2);
                                            assert(s@.subrange(e2 as int, e2 as int + 2)
                                                == "}}"@);
                                            assert(false);
                                        }
                                    }
                                }
                                return None;
                            }
                        }
                        None => {
                            proof {
                                assert forall|op2: OpModel| s@ != #[trigger] enc_op(op2) by {
                                    if s@ == enc_op(op2) {
                                        lemma_op2_is_put(s@, op2, key@);
                                        let v2 = op2->Put_value;
                                        lemma_set_parts(key@, v2, s@);
                                        lemma_quoted_prefix_intro(
                                            v2,
                                            "}}"@,
                                            s@.skip(e1 as int + 10),
                                        );
                                        assert(false);
                                    }
                                }
                            }
                            return None;
                        }
                    }
                } else {
                    proof {
                        assert forall|op2: OpModel| s@ != #[trigger] enc_op(op2) by {
                            if s@ == enc_op(op2) {
                                lemma_op2_is_put(s@, op2, key@);
                                let v2 = op2->Put_value;
                                lemma_set_parts(key@, v2, s@);
                                assert(s@.subrange(e1 as int, e1 as int + 10) == ",\"value\":\""@);
                                assert(e1 + 10 <= s@.len());
                                assert(false);
                            }
                        }
                    }
                    return None;
                }
            }
            None => {
                proof {
                    assert forall|op2: OpModel| s@ != #[trigger] enc_op(op2) by {
                        if s@ == enc_op(op2) {
                            match op2 {
                                OpModel::Put { key: k2, value: v2 } => {
                                    lemma_set_parts(k2, v2, s@);
                                    lemma_quoted_prefix_intro(
                                        k2,
                                        ",\"value\":\""@ + (esc(v2) + seq!['"'] + "}}"@),
                                        s@.skip(15),
                                    );
                                }
                                OpModel::Rm { key: k2 } => {
                                    lemma_rm_parts(k2, s@);
                                    assert(s@[2] == "{\"Set\":{\"key\":\""@[2]);
                                    assert(s@[2] == "{\"Rm\":{\"key\":\""@[2]);
                                }
                            }
                        }
                    }
                }
                return None;
            }
        }
    } else if match_at(s, 0, "{\"Rm\":{\"key\":\"") {
        match parse_string(s, 14) {
            Some((key, e1)) => {
                proof {
                    assert(s@.subrange(14, e1 as int) == esc(key@) + seq!['"']);
                    assert((esc(key@) + seq!['"']).len() == esc(key@).len() + 1);
                    assert(e1 - 14 == esc(key@).len() + 1);
                    assert forall|op2: OpModel| s@ == #[trigger] enc_op(op2) implies (op2 matches
                        OpModel::Rm { key: k2 } && k2 == key@) by {
                        lemma_op2_is_rm(s@, op2, key@);
                    }
                }
                let done = match_at(s, e1, "}}");
                if done && e1 + 2 == n {
                    proof {
                        let w = s@;
                        let om = OpModel::Rm { key: key@ };
                        assert(w =~= w.subrange(0, 14) + w.subrange(14, e1 as int) + w.subrange(
                            e1 as int,
                            n as int,
                        ));
                        assert(enc_op(om) =~= "{\"Rm\":{\"key\":\""@ + (esc(key@) + seq!['"'])
                            + "}}"@) by {
                            reveal_strlit("\"}}");
                            assert("\"}}"@ =~= seq!['"'] + "}}"@);
                        }
                        assert(w == enc_op(om));
                    }
                    return Some(Op::Rm { key });
                } else {
                    proof {
                        assert forall|op2: OpModel| s@ != #[trigger] enc_op(op2) by {
                            if s@ == enc_op(op2) {
                                lemma_op2_is_rm(s@, op2, key@);
                                lemma_rm_parts(key@, s@);
                                assert(s@.len() == e1 + 2);
                                assert(s@.subrange(e1 as int, e1 as int + 2) == "}}"@);
                                assert(false);
                            }
                        }
                    }
                    return None;
                }
            }
            None => {
                proof {
                    assert forall|op2: OpModel| s@ != #[trigger] enc_op(op2) by {
                        if s@ == enc_op(op2) {
                            match op2 {
                                OpModel::Put { key: k2, value: v2 } => {
                                    lemma_set_parts(k2, v2, s@);
                                    assert(s@[2] == "{\"Set\":{\"key\":\""@[2]);
                                    assert(s@[2] == "{\"Rm\":{\"key\":\""@[2]);
                                }
                                OpModel::Rm { key: k2 } => {
                                    lemma_rm_parts(k2, s@);
                                    lemma_quoted_prefix_intro(k2, "}}"@, s@.skip(14));
                                }
                            }
                        }
                    }
                }
                return None;
            }
        }
    } else {
        proof {
            assert forall|op2: OpModel| s@ != #[trigger] enc_op(op2) by {
                if s@ == enc_op(op2) {
                    match op2 {
                        OpModel::Put { key: k2, value: v2 } => {
                            lemma_set_parts(k2, v2, s@);
                        }
                        OpModel::Rm { key: k2 } => {
                            lemma_rm_parts(k2, s@);
                        }
                    }
                }
            }
        }
        return None;
    }
}

/// In the branch that has matched the `Set` opening and parsed `key`, any
/// record whose text equals `s` is a `Put` of that key.
proof fn lemma_op2_is_put(w: Seq<char>, op2: OpModel, key: Seq<char>)
    requires
        w == enc_op(op2),
        w.len() >= 15,
        w.subrange(0, 15) == "{\"Set\":{\"key\":\""@,
        forall|t2: Seq<char>| #[trigger] quoted_prefix(w.skip(15), t2) ==> t2 == key,
    ensures
        op2 matches OpModel::Put { key: k2, value: v2 } && k2 == key,
{
    reveal_strlit("{\"Set\":{\"key\":\"");
    reveal_strlit("{\"Rm\":{\"key\":\"");
    match op2 {
        OpModel::Put { key: k2, value: v2 } => {
            lemma_set_parts(k2, v2, w);
            lemma_quoted_prefix_intro(
                k2,
                ",\"value\":\""@ + (esc(v2) + seq!['"'] + "}}"@),
                w.skip(15),
            );
            assert(k2 == key);
        }
        OpModel::Rm { key: k2 } => {
            lemma_rm_parts(k2, w);
            assert(w[2] == w.subrange(0, 15)[2]);
            assert(w[2] == w.take(14)[2]);
            assert(false);
        }
    }
}

/// In the branch that has matched the `Rm` opening and parsed `key`, any
/// record whose text equals `s` is an `Rm` of that key.
proof fn lemma_op2_is_rm(w: Seq<char>, op2: OpModel, key: Seq<char>)
    requires
        w == enc_op(op2),
        w.len() >= 14,
        w.subrange(0, 14) == "{\"Rm\":{\"key\":\""@,
        forall|t2: Seq<char>| #[trigger] quoted_prefix(w.skip(14), t2) ==> t2 == key,
    ensures
        op2 matches OpModel::Rm { key: k2 } && k2 == key,
{
    reveal_strlit("{\"Set\":{\"key\":\"");
    reveal_strlit("{\"Rm\":{\"key\":\"");
    match op2 {
        OpModel::Put { key: k2, value: v2 } => {
            lemma_set_parts(k2, v2, w);
            assert(w[2] == w.subrange(0, 14)[2]);
            assert(w[2] == w.take(15)[2]);
            assert(false);
        }
        OpModel::Rm { key: k2 } => {
            lemma_rm_parts(k2, w);
            lemma_quoted_prefix_intro(k2, "}}"@, w.skip(14));
            assert(k2 == key);
        }
    }
}

// ------------------------------------------------------------------
// Segments: one record per line.
// ------------------------------------------------------------------

/// The full line of a record inside a segment, newline included.
pub open spec fn line_of(op: OpModel) -> Seq<char> {
    enc_op(op).push('\n')
}

/// The text of a whole segment holding the given records.
pub open spec fn segc(rs: Seq<OpModel>) -> Seq<char>
    decreases rs.len(),
{
    if rs.len() == 0 {
        Seq::empty()
    } else {
        line_of(rs[0]) + segc(rs.drop_first())
    }
}

/// The record models of a sequence of records.
pub open spec fn ops_model(s: Seq<Op>) -> Seq<OpModel> {
    s.map_values(|o: Op| o@)
}

pub proof fn lemma_segc_push(rs: Seq<OpModel>, op: OpModel)
    ensures
        segc(rs.push(op)) == segc(rs) + line_of(op),
    decreases rs.len(),
{
    if rs.len() == 0 {
        assert(segc(Seq::<OpModel>::empty()) =~= Seq::<char>::empty());
        assert(rs.push(op).drop_first() =~= Seq::<OpModel>::empty());
        assert(rs.push(op)[0] == op);
        assert(segc(rs.push(op)) =~= line_of(op));
        assert(segc(rs) + line_of(op) =~= line_of(op));
    } else {
        lemma_segc_push(rs.drop_first(), op);
        assert(rs.push(op).drop_first() =~= rs.drop_first().push(op));
        assert(rs.push(op)[0] == rs[0]);
        assert(line_of(rs[0]) + (segc(rs.drop_first()) + line_of(op)) =~= (line_of(rs[0]) + segc(
            rs.drop_first(),
        )) + line_of(op));
    }
}

pub proof fn lemma_segc_concat(a: Seq<OpModel>, b: Seq<OpModel>)
    ensures
        segc(a + b) == segc(a) + segc(b),
    decreases a.len(),
{
    if a.len() == 0 {
        assert(a + b =~= b);
        assert(segc(a) + segc(b) =~= segc(b));
    } else {
        lemma_segc_concat(a.drop_first(), b);
        assert((a + b).drop_first() =~= a.drop_first() + b);
        assert((a + b)[0] == a[0]);
        assert(line_of(a[0]) + (segc(a.drop_first()) + segc(b)) =~= (line_of(a[0]) + segc(
            a.drop_first(),
        )) + segc(b));
    }
}

/// The text of a record holds no raw newline; the newline that ends its line
/// is therefore the first one.
pub proof fn lemma_enc_op_no_newline(op: OpModel)
    ensures
        forall|i: int| 0 <= i < enc_op(op).len() ==> #[trigger] enc_op(op)[i] != '\u{0a}',
{
    reveal_strlit("{\"Set\":{\"key\":\"");
    reveal_strlit("{\"Rm\":{\"key\":\"");
    reveal_strlit(",\"value\":\"");
    reveal_strlit("}}");
    match op {
        OpModel::Put { key: k, value: v } => {
            let w = enc_op(op);
            lemma_set_parts(k, v, w);
            crate::codec::lemma_esc_no_newline(k);
            crate::codec::lemma_esc_no_newline(v);
            assert forall|i: int| 0 <= i < w.len() implies #[trigger] w[i] != '\u{0a}' by {
                let lk = esc(k).len() as int;
                let lv = esc(v).len() as int;
                if i < 15 {
                    assert(w[i] == w.take(15)[i]);
                } else if i < 15 + lk {
                    assert(w[i] == w.subrange(15, 16 + lk)[i - 15]);
                    assert(w.subrange(15, 16 + lk)[i - 15] == esc(k)[i - 15]);
                } else if i == 15 + lk {
                    assert(w[i] == w.subrange(15, 16 + lk)[lk]);
                } else if i < 26 + lk {
                    assert(w[i] == w.subrange(16 + lk, 26 + lk)[i - 16 - lk]);
                } else if i < 26 + lk + lv {
                    assert(w[i] == w.subrange(26 + lk, 27 + lk + lv)[i - 26 - lk]);
                    assert(w.subrange(26 + lk, 27 + lk + lv)[i - 26 - lk] == esc(v)[i - 26 - lk]);
                } else if i == 26 + lk + lv {
                    assert(w[i] == w.subrange(26 + lk, 27 + lk + lv)[lv]);
                } else {
                    assert(w[i] == w.subrange(27 + lk + lv, w.len() as int)[i - 27 - lk - lv]);
                }
            }
        }
        OpModel::Rm { key: k } => {
            let w = enc_op(op);
            lemma_rm_parts(k, w);
            crate::codec::lemma_esc_no_newline(k);
            assert forall|i: int| 0 <= i < w.len() implies #[trigger] w[i] != '\u{0a}' by {
                let lk = esc(k).len() as int;
                if i < 14 {
                    assert(w[i] == w.take(14)[i]);
                } else if i < 14 + lk {
                    assert(w[i] == w.subrange(14, 15 + lk)[i - 14]);
                    assert(w.subrange(14, 15 + lk)[i - 14] == esc(k)[i - 14]);
                } else if i == 14 + lk {
                    assert(w[i] == w.subrange(14, 15 + lk)[lk]);
                } else {
                    assert(w[i] == w.subrange(15 + lk, w.len() as int)[i - 15 - lk]);
                }
            }
        }
    }
}

/// Two records with the same text are the same record.
pub proof fn lemma_enc_op_injective(a: OpModel, b: OpModel)
    requires
        enc_op(a) == enc_op(b),
    ensures
        a == b,
{
    reveal_strlit("{\"Set\":{\"key\":\"");
    reveal_strlit("{\"Rm\":{\"key\":\"");
    let w = enc_op(a);
    match (a, b) {
        (OpModel::Put { key: k1, value: v1 }, OpModel::Put { key: k2, value: v2 }) => {
            lemma_set_parts(k1, v1, w);
            lemma_set_parts(k2, v2, w);
            let r1 = ",\"value\":\""@ + (esc(v1) + seq!['"'] + "}}"@);
            let r2 = ",\"value\":\""@ + (esc(v2) + seq!['"'] + "}}"@);
            assert(esc(k1) + seq!['"'] + r1 == esc(k2) + (seq!['"'] + r2)) by {
                assert(esc(k1) + seq!['"'] + r1 =~= esc(k2) + (seq!['"'] + r2));
            }
            crate::codec::lemma_esc_split(k1, k2, seq!['"'] + r2, r1);
            if k1 != k2 {
                let u = k1.skip(k2.len() as int);
                crate::codec::lemma_esc_char_shape(u[0]);
                assert((seq!['"'] + r2)[0] == '"');
                assert(false);
            }
            assert(k1 == k2);
            assert(seq!['"'] + r1 == seq!['"'] + r2);
            assert(r1 =~= (seq!['"'] + r1).skip(1));
            assert(r2 =~= (seq!['"'] + r2).skip(1));
            let x1 = esc(v1) + seq!['"'] + "}}"@;
            let x2 = esc(v2) + seq!['"'] + "}}"@;
            assert(x1 =~= r1.skip(",\"value\":\""@.len() as int));
            assert(x2 =~= r2.skip(",\"value\":\""@.len() as int));
            assert(esc(v1) + seq!['"'] + "}}"@ == esc(v2) + (seq!['"'] + "}}"@)) by {
                assert(esc(v2) + seq!['"'] + "}}"@ =~= esc(v2) + (seq!['"'] + "}}"@));
            }
            crate::codec::lemma_esc_split(v1, v2, seq!['"'] + "}}"@, "}}"@);
            if v1 != v2 {
                let u = v1.skip(v2.len() as int);
                crate::codec::lemma_esc_char_shape(u[0]);
                assert((seq!['"'] + "}}"@)[0] == '"');
                assert(false);
            }
        }
        (OpModel::Put { key: k1, value: v1 }, OpModel::Rm { key: k2 }) => {
            lemma_set_parts(k1, v1, w);
            lemma_rm_parts(k2, w);
            assert(w[2] == w.take(15)[2]);
            assert(w[2] == w.take(14)[2]);
            assert(false);
        }
        (OpModel::Rm { key: k1 }, OpModel::Put { key: k2, value: v2 }) => {
            lemma_rm_parts(k1, w);
            lemma_set_parts(k2, v2, w);
            assert(w[2] == w.take(15)[2]);
            assert(w[2] == w.take(14)[2]);
            assert(false);
        }
        (OpModel::Rm { key: k1 }, OpModel::Rm { key: k2 }) => {
            lemma_rm_parts(k1, w);
            lemma_rm_parts(k2, w);
            assert(esc(k1) + seq!['"'] + "}}"@ == esc(k2) + (seq!['"'] + "}}"@)) by {
                assert(esc(k2) + seq!['"'] + "}}"@ =~= esc(k2) + (seq!['"'] + "}}"@));
            }
            crate::codec::lemma_esc_split(k1, k2, seq!['"'] + "}}"@, "}}"@);
            if k1 != k2 {
                let u = k1.skip(k2.len() as int);
                crate::codec::lemma_esc_char_shape(u[0]);
                assert((seq!['"'] + "}}"@)[0] == '"');
                assert(false);
            }
        }
    }
}

/// A line is decoded from its leading characters: if two lines start the
/// same stream of characters, they carry the same record.
pub proof fn lemma_line_determined(a: OpModel, b: OpModel, p: Seq<char>, q: Seq<char>)
    requires
        line_of(a) + p == line_of(b) + q,
    ensures
        a == b,
        p == q,
{
    let la = enc_op(a).len() as int;
    let lb = enc_op(b).len() as int;
    lemma_enc_op_no_newline(a);
    lemma_enc_op_no_newline(b);
    let lhs = line_of(a) + p;
    assert(lhs[la] == '\n');
    assert((line_of(b) + q)[lb] == '\n');
    if la < lb {
        assert(lhs[la] == enc_op(b)[la]);
        assert(false);
    }
    if lb < la {
        assert(lhs[lb] == enc_op(a)[lb]);
        assert(false);
    }
    assert(la == lb);
    assert forall|i: int| 0 <= i < la implies enc_op(a)[i] == enc_op(b)[i] by {
        assert(lhs[i] == enc_op(a)[i]);
        assert(lhs[i] == enc_op(b)[i]);
    }
    assert(enc_op(a) =~= enc_op(b));
    lemma_enc_op_injective(a, b);
    assert(p =~= lhs.skip(la + 1));
    assert(q =~= (line_of(b) + q).skip(lb + 1));
}

/// How a segment text aligns with an arbitrary already-parsed prefix of
/// records: either the prefix is everything, or a further whole record
/// follows.
pub proof fn lemma_segc_split(rs: Seq<OpModel>, ps: Seq<OpModel>, tail: Seq<char>)
    requires
        segc(rs) == segc(ps) + tail,
    ensures
        (rs == ps && tail == Seq::<char>::empty()) || (rs.len() > ps.len() && rs.take(
            ps.len() as int,
        ) == ps && tail == segc(rs.skip(ps.len() as int))),
    decreases ps.len(),
{
    if ps.len() == 0 {
        assert(segc(ps) =~= Seq::<char>::empty());
        assert(tail =~= segc(rs));
        if rs.len() == 0 {
            assert(rs =~= ps);
            assert(tail =~= Seq::<char>::empty());
        } else {
            assert(rs.take(0) =~= ps);
            assert(rs.skip(0) =~= rs);
        }
    } else {
        if rs.len() == 0 {
            assert(segc(rs) =~= Seq::<char>::empty());
            assert(segc(ps).len() >= line_of(ps[0]).len());
            assert(false);
        } else {
            assert(segc(rs) =~= line_of(rs[0]) + (segc(rs.drop_first())));
            assert(segc(ps) + tail =~= line_of(ps[0]) + (segc(ps.drop_first()) + tail));
            lemma_line_determined(rs[0], ps[0], segc(rs.drop_first()), segc(ps.drop_first())
                + tail);
            lemma_segc_split(rs.drop_first(), ps.drop_first(), tail);
            if rs.drop_first() == ps.drop_first() && tail == Seq::<char>::empty() {
                assert(rs.len() == ps.len());
                assert forall|i: int| 0 <= i < rs.len() implies rs[i] == ps[i] by {
                    if i > 0 {
                        assert(rs[i] == rs.drop_first()[i - 1]);
                        assert(ps[i] == ps.drop_first()[i - 1]);
                    }
                }
                assert(rs =~= ps);
            } else {
                let k = ps.len() as int;
                assert(rs.drop_first().take(k - 1) == ps.drop_first());
                assert forall|i: int| 0 <= i < k implies rs.take(k)[i] == ps[i] by {
                    if i > 0 {
                        assert(rs.take(k)[i] == rs.drop_first().take(k - 1)[i - 1]);
                        assert(ps[i] == ps.drop_first()[i - 1]);
                    }
                }
                assert(rs.take(k) =~= ps);
                assert(rs.skip(k) =~= rs.drop_first().skip(k - 1));
            }
        }
    }
}

/// Position of the first newline at or after `start`.
fn find_newline(s: &str, start: usize) -> (r: Option<usize>)
    requires
        start <= s@.len(),
    ensures
        match r {
            Some(k) => start <= k < s@.len() && s@[k as int] == '\u{0a}' && (forall|m: int|
                start <= m < k ==> s@[m] != '\u{0a}'),
            None => forall|m: int| start <= m < s@.len() ==> s@[m] != '\u{0a}',
        },
{
    let n = s.unicode_len();
    let mut k: usize = start;
    while k < n
        invariant
            start <= k <= n,
            n == s@.len(),
            forall|m: int| start <= m < k ==> s@[m] != '\u{0a}',
        decreases n - k,
    {
        if s.get_char(k) == '\n' {
            return Some(k);
        }
        k = k + 1;
    }
    None
}

/// Parse a whole segment text into its records.  Succeeds exactly on the
/// canonical text of some record sequence, and then returns that sequence.
pub fn parse_segment(content: &str) -> (r: Option<Vec<Op>>)
    ensures
        match r {
            Some(ops) => content@ == segc(ops_model(ops@)) && (forall|rs: Seq<OpModel>|
                content@ == #[trigger] segc(rs) ==> rs == ops_model(ops@)),
            None => forall|rs: Seq<OpModel>| content@ != #[trigger] segc(rs),
        },
{
    let n = content.unicode_len();
    let mut ops: Vec<Op> = Vec::new();
    let mut j: usize = 0;
    proof {
        assert(ops_model(ops@) =~= Seq::<OpModel>::empty());
        assert(segc(ops_model(ops@)) =~= Seq::<char>::empty());
        assert(content@.take(0) =~= Seq::<char>::empty());
    }
    loop
        invariant
            j <= n,
            n == content@.len(),
            segc(ops_model(ops@)) == content@.take(j as int),
        decreases n - j,
    {
        let ghost acc = ops_model(ops@);
        if j >= n {
            proof {
                assert(content@.take(n as int) =~= content@);
                assert forall|rs: Seq<OpModel>| content@ == #[trigger] segc(rs) implies rs
                    == acc by {
                    assert(segc(rs) == segc(acc) + Seq::<char>::empty()) by {
                        assert(segc(acc) + Seq::<char>::empty() =~= segc(acc));
                    }
                    lemma_segc_split(rs, acc, Seq::<char>::empty());
                    if rs != acc {
                        let rest = rs.skip(acc.len() as int);
                        assert(segc(rest) =~= Seq::<char>::empty());
                        assert(segc(rest).len() >= line_of(rest[0]).len());
                        assert(false);
                    }
                }
            }
            return Some(ops);
        }
        proof {
            assert(content@ =~= content@.take(j as int) + content@.skip(j as int));
        }
        match find_newline(content, j) {
            Some(k) => {
                let lt = content.substring_char(j, k);
                match decode_op(lt) {
                    Some(op) => {
                        proof {
                            lemma_segc_push(acc, op@);
                            assert(ops_model(ops@.push(op)) =~= acc.push(op@));
                            assert(lt@ == content@.subrange(j as int, k as int));
                            assert(line_of(op@) =~= enc_op(op@).push('\n'));
                            assert(content@.take(k as int + 1) =~= content@.take(j as int) + (
                            enc_op(op@).push('\n')));
                        }
                        ops.push(op);
                        j = k + 1;
                    }
                    None => {
                        proof {
                            assert forall|rs: Seq<OpModel>| content@ != #[trigger] segc(rs) by {
                                if content@ == segc(rs) {
                                    lemma_segc_split(rs, acc, content@.skip(j as int));
                                    lemma_rest_starts_with_line(content@, j as int, rs, acc);
                                    let r0 = rs.skip(acc.len() as int)[0];
                                    let le = enc_op(r0).len() as int;
                                    assert(k - j == le);
                                    assert(lt@ =~= enc_op(r0));
                                    assert(false);
                                }
                            }
                        }
                        return None;
                    }
                }
            }
            None => {
                proof {
                    assert forall|rs: Seq<OpModel>| content@ != #[trigger] segc(rs) by {
                        if content@ == segc(rs) {
                            lemma_segc_split(rs, acc, content@.skip(j as int));
                            lemma_rest_starts_with_line(content@, j as int, rs, acc);
                            assert(false);
                        }
                    }
                }
                return None;
            }
        }
    }
}

// ------------------------------------------------------------------
// Replay: the map a sequence of records denotes.
// ------------------------------------------------------------------

/// One record applied to a key/value map.
pub open spec fn apply_op(
    m: Map<Seq<char>, Seq<char>>,
    op: OpModel,
) -> Map<Seq<char>, Seq<char>> {
    match op {
        OpModel::Put { key, value } => m.insert(key, value),
        OpModel::Rm { key } => m.remove(key),
    }
}

/// The map left after applying a sequence of records in order.
pub open spec fn replay(rs: Seq<OpModel>) -> Map<Seq<char>, Seq<char>>
    decreases rs.len(),
{
    if rs.len() == 0 {
        Map::empty()
    } else {
        apply_op(replay(rs.drop_last()), rs.last())
    }
}

/// The records of the segments named by `vers`, in that order.
pub open spec fn records_of(disk: Map<u64, Seq<OpModel>>, vers: Seq<u64>) -> Seq<OpModel>
    decreases vers.len(),
{
    if vers.len() == 0 {
        Seq::empty()
    } else {
        records_of(disk, vers.drop_last()) + disk[vers.last()]
    }
}

/// Total byte count of the segments named by `vers`.
pub open spec fn seg_bytes(disk: Map<u64, Seq<OpModel>>, vers: Seq<u64>) -> int
    decreases vers.len(),
{
    if vers.len() == 0 {
        0
    } else {
        seg_bytes(disk, vers.drop_last()) + blen(segc(disk[vers.last()]))
    }
}

/// The pointer held by the in-memory index for one key.
#[derive(Clone, Copy, Debug, PartialEq, Eq, Structural)]
pub struct InMemIndex {
    pub version: u64,
    pub start_pos: u64,
}

impl View for InMemIndex {
    type V = InMemIndex;

    open spec fn view(&self) -> InMemIndex {
        *self
    }
}

/// The index entry `e` points at a `Set` record of `k` with value `v`: the
/// record stands in an existing segment, at the byte offset the entry names.
pub open spec fn entry_ok(
    e: InMemIndex,
    disk: Map<u64, Seq<OpModel>>,
    k: Seq<char>,
    v: Seq<char>,
) -> bool {
    &&& disk.contains_key(e.version)
    &&& exists|i: int|
        0 <= i < disk[e.version].len() && #[trigger] disk[e.version][i] == (OpModel::Put {
            key: k,
            value: v,
        }) && e.start_pos as int == blen(segc(disk[e.version].take(i)))
}

/// The index holds exactly the live keys, each pointing at a record of its
/// live value.
pub open spec fn index_ok(
    index: Map<Seq<char>, InMemIndex>,
    disk: Map<u64, Seq<OpModel>>,
    live: Map<Seq<char>, Seq<char>>,
) -> bool {
    &&& forall|k: Seq<char>| #[trigger] index.contains_key(k) <==> live.contains_key(k)
    &&& forall|k: Seq<char>| #[trigger] live.contains_key(k) ==> entry_ok(index[k], disk, k, live[k])
}

/// Entries stay valid when segments only grow or appear.
proof fn lemma_index_ok_extend(
    index: Map<Seq<char>, InMemIndex>,
    disk1: Map<u64, Seq<OpModel>>,
    disk2: Map<u64, Seq<OpModel>>,
    live: Map<Seq<char>, Seq<char>>,
)
    requires
        index_ok(index, disk1, live),
        forall|v: u64| #[trigger] disk1.contains_key(v) ==> disk2.contains_key(v)
            && disk2[v].len() >= disk1[v].len() && disk2[v].take(disk1[v].len() as int)
            == disk1[v],
    ensures
        index_ok(index, disk2, live),
{
    assert forall|k: Seq<char>| #[trigger] live.contains_key(k) implies entry_ok(
        index[k],
        disk2,
        k,
        live[k],
    ) by {
        let e = index[k];
        let i = choose|i: int|
            0 <= i < disk1[e.version].len() && #[trigger] disk1[e.version][i] == (OpModel::Put {
                key: k,
                value: live[k],
            }) && e.start_pos as int == blen(segc(disk1[e.version].take(i)));
        assert(disk2[e.version][i] == disk2[e.version].take(disk1[e.version].len() as int)[i]);
        assert(disk2[e.version].take(i) =~= disk1[e.version].take(i));
        assert(0 <= i < disk2[e.version].len() && disk2[e.version][i] == (OpModel::Put {
            key: k,
            value: live[k],
        }) && e.start_pos as int == blen(segc(disk2[e.version].take(i))));
    }
}

/// A `Set` record appended and indexed keeps the index exact.
proof fn lemma_index_ok_put(
    index: Map<Seq<char>, InMemIndex>,
    disk: Map<u64, Seq<OpModel>>,
    live: Map<Seq<char>, Seq<char>>,
    k: Seq<char>,
    v: Seq<char>,
    e: InMemIndex,
)
    requires
        index_ok(index, disk, live),
        entry_ok(e, disk, k, v),
    ensures
        index_ok(index.insert(k, e), disk, live.insert(k, v)),
{
    assert forall|k2: Seq<char>| #[trigger] live.insert(k, v).contains_key(k2) implies entry_ok(
        index.insert(k, e)[k2],
        disk,
        k2,
        live.insert(k, v)[k2],
    ) by {
        if k2 != k {
            assert(live.contains_key(k2));
        }
    }
}

/// A removal applied to index and live map keeps the index exact.
proof fn lemma_index_ok_rm(
    index: Map<Seq<char>, InMemIndex>,
    disk: Map<u64, Seq<OpModel>>,
    live: Map<Seq<char>, Seq<char>>,
    k: Seq<char>,
)
    requires
        index_ok(index, disk, live),
    ensures
        index_ok(index.remove(k), disk, live.remove(k)),
{
    assert forall|k2: Seq<char>| #[trigger] live.remove(k).contains_key(k2) implies entry_ok(
        index.remove(k)[k2],
        disk,
        k2,
        live.remove(k)[k2],
    ) by {
        assert(live.contains_key(k2));
    }
}

/// Segment lists over equal segment maps carry equal records and bytes.
proof fn lemma_records_of_same(
    disk1: Map<u64, Seq<OpModel>>,
    disk2: Map<u64, Seq<OpModel>>,
    vers: Seq<u64>,
)
    requires
        forall|i: int| 0 <= i < vers.len() ==> disk1[#[trigger] vers[i]] == disk2[vers[i]],
    ensures
        records_of(disk1, vers) == records_of(disk2, vers),
        seg_bytes(disk1, vers) == seg_bytes(disk2, vers),
    decreases vers.len(),
{
    if vers.len() > 0 {
        assert(forall|i: int|
            0 <= i < vers.drop_last().len() ==> disk1[#[trigger] vers.drop_last()[i]]
                == disk2[vers.drop_last()[i]]);
        lemma_records_of_same(disk1, disk2, vers.drop_last());
        assert(vers[vers.len() - 1] == vers.last());
    }
}

/// Inside the parser: the unread text either is empty or starts with one
/// whole record line, whose newline is the first one there.
proof fn lemma_rest_starts_with_line(w: Seq<char>, j: int, rs: Seq<OpModel>, acc: Seq<OpModel>)
    requires
        0 <= j <= w.len(),
        j < w.len(),
        segc(acc) == w.take(j),
        segc(rs) == w,
        rs.len() > acc.len() && rs.take(acc.len() as int) == acc && w.skip(j) == segc(
            rs.skip(acc.len() as int),
        ),
    ensures
        ({
            let r0 = rs.skip(acc.len() as int)[0];
            let le = enc_op(r0).len() as int;
            &&& j + le < w.len()
            &&& w.subrange(j, j + le) == enc_op(r0)
            &&& w[j + le] == '\u{0a}'
            &&& forall|m: int| j <= m < j + le ==> w[m] != '\u{0a}'
        }),
{
    let rest = rs.skip(acc.len() as int);
    let r0 = rest[0];
    let le = enc_op(r0).len() as int;
    assert(segc(rest) =~= line_of(r0) + segc(rest.drop_first()));
    lemma_enc_op_no_newline(r0);
    assert(w.skip(j).len() == le + 1 + segc(rest.drop_first()).len());
    assert forall|m: int| j <= m < j + le implies w[m] != '\u{0a}' by {
        assert(w[m] == w.skip(j)[m - j]);
        assert(w.skip(j)[m - j] == line_of(r0)[m - j]);
        assert(line_of(r0)[m - j] == enc_op(r0)[m - j]);
    }
    assert(w[j + le] == w.skip(j)[le]);
    assert(w.skip(j)[le] == line_of(r0)[le]);
    assert(line_of(r0)[le] == '\n');
    assert(w.subrange(j, j + le) =~= enc_op(r0));
}

// ------------------------------------------------------------------
// The writer: owner of the index, the counters and the on-disk model.
// ------------------------------------------------------------------

/// Rotate the active segment once it holds this many bytes.
pub const ACTIVE_THRESHOLD: u64 = 1024;

/// Compact once the sealed segments hold this many bytes.
pub const THRESHOLD: u64 = 40 * 1024;

/// The single writer of a store: the in-memory index, the byte counters, and
/// the version bookkeeping of the segments.  The text of every segment is
/// carried alongside as a ghost map, so that what the store believes about
/// the directory is part of its state.
pub struct KvStoreWriter {
    index: StrMap<InMemIndex>,
    sealed: Vec<u64>,
    current_ver: u64,
    active: bool,
    current_len: u64,
    old_log_len: u64,
    min_version: u64,
    disk: Ghost<Map<u64, Seq<OpModel>>>,
}

impl KvStoreWriter {
    /// The records of every segment, by version.
    pub closed spec fn disk_map(self) -> Map<u64, Seq<OpModel>> {
        self.disk@
    }

    /// All segment versions in ascending order, the active one last.
    pub closed spec fn all_versions(self) -> Seq<u64> {
        if self.active {
            self.sealed@.push(self.current_ver)
        } else {
            self.sealed@
        }
    }

    /// The sealed segment versions in ascending order.
    pub closed spec fn sealed_list(self) -> Seq<u64> {
        self.sealed@
    }

    /// Every record on disk, in replay order.
    pub open spec fn records(self) -> Seq<OpModel> {
        records_of(self.disk_map(), self.all_versions())
    }

    /// The live key/value map: what replaying the whole log leaves.
    pub open spec fn live(self) -> Map<Seq<char>, Seq<char>> {
        replay(self.records())
    }

    /// Is there an open active segment?
    pub closed spec fn is_active(self) -> bool {
        self.active
    }

    /// The version of the newest segment.
    pub closed spec fn version(self) -> u64 {
        self.current_ver
    }

    /// Bytes written to the active segment so far.
    pub closed spec fn active_bytes(self) -> u64 {
        self.current_len
    }

    /// Bytes counted against the compaction threshold.
    pub closed spec fn old_bytes(self) -> u64 {
        self.old_log_len
    }

    /// The published minimum live version: readers drop cached handles to
    /// anything below it.
    pub closed spec fn min_ver(self) -> u64 {
        self.min_version
    }

    /// The index as a map from key to pointer.
    pub closed spec fn index_map(self) -> Map<Seq<char>, InMemIndex> {
        self.index@
    }

    /// Total byte count of all segments on disk.
    pub open spec fn disk_bytes(self) -> int {
        seg_bytes(self.disk_map(), self.all_versions())
    }

    /// The writer's invariant.
    pub closed spec fn wf(self) -> bool {
        &&& self.index.wf()
        &&& forall|i: int, j: int|
            0 <= i < j < self.sealed@.len() ==> self.sealed@[i] < self.sealed@[j]
        &&& (self.active ==> forall|i: int|
            0 <= i < self.sealed@.len() ==> #[trigger] self.sealed@[i] < self.current_ver)
        &&& (!self.active ==> self.sealed@.len() > 0 && self.sealed@.last() == self.current_ver)
        &&& (forall|v: u64| #[trigger]
            self.disk@.contains_key(v) <==> self.all_versions().contains(v))
        &&& (self.active ==> self.current_len as int == blen(segc(self.disk@[self.current_ver])))
        &&& (!self.active ==> self.current_len == 0)
        &&& index_ok(self.index@, self.disk@, self.live())
        &&& (forall|v: u64| #[trigger] self.disk@.contains_key(v) ==> self.min_version <= v)
    }

    /// Should the caller seal the active segment and open a new one?
    pub fn should_rotate(&self) -> (r: bool)
        ensures
            r == (self.active_bytes() >= ACTIVE_THRESHOLD),
    {
        self.current_len >= ACTIVE_THRESHOLD
    }

    /// Should the caller compact the sealed segments?
    pub fn should_compact(&self) -> (r: bool)
        ensures
            r == (self.old_bytes() >= THRESHOLD),
    {
        self.old_log_len >= THRESHOLD
    }

    /// The published minimum live version.
    pub fn min_live_version(&self) -> (r: u64)
        ensures
            r == self.min_ver(),
    {
        self.min_version
    }

    /// The version of the newest segment.
    pub fn current_version(&self) -> (r: u64)
        ensures
            r == self.version(),
    {
        self.current_ver
    }

    /// The sealed segment versions, ascending: the files a compaction reads.
    pub fn sealed_versions(&self) -> (r: Vec<u64>)
        ensures
            r@ == self.sealed_list(),
    {
        let mut r: Vec<u64> = Vec::new();
        let mut i: usize = 0;
        let n = self.sealed.len();
        while i < n
            invariant
                i <= n,
                n == self.sealed@.len(),
                r@ == self.sealed@.take(i as int),
            decreases n - i,
        {
            r.push(self.sealed[i]);
            proof {
                assert(self.sealed@.take(i as int).push(self.sealed@[i as int]) =~= self.sealed@
                    .take(i as int + 1));
            }
            i = i + 1;
        }
        proof {
            assert(self.sealed@.take(n as int) =~= self.sealed@);
        }
        r
    }

    /// Seal the active segment: its bytes now count towards compaction.
    /// The caller flushes the file; no text changes.
    pub fn seal_active(&mut self)
        requires
            old(self).wf(),
            old(self).is_active(),
            old(self).old_bytes() + old(self).active_bytes() <= u64::MAX,
        ensures
            final(self).wf(),
            !final(self).is_active(),
            final(self).live() == old(self).live(),
            final(self).disk_map() == old(self).disk_map(),
            final(self).version() == old(self).version(),
            final(self).sealed_list() == old(self).sealed_list().push(old(self).version()),
            final(self).old_bytes() == old(self).old_bytes() + old(self).active_bytes(),
            final(self).min_ver() == old(self).min_ver(),
            final(self).disk_bytes() == old(self).disk_bytes(),
    {
        self.old_log_len = self.old_log_len + self.current_len;
        self.current_len = 0;
        let v = self.current_ver;
        self.sealed.push(v);
        self.active = false;
        proof {
            assert(self.all_versions() =~= old(self).all_versions());
            assert(self.records() == old(self).records());
        }
    }

    /// Open a fresh, empty active segment under the next version.  The
    /// caller creates the file `<returned version>.log`.
    pub fn open_new_active(&mut self) -> (v: u64)
        requires
            old(self).wf(),
            !old(self).is_active(),
            old(self).version() < u64::MAX,
        ensures
            final(self).wf(),
            final(self).is_active(),
            v == old(self).version() + 1,
            final(self).version() == v,
            final(self).live() == old(self).live(),
            final(self).disk_map() == old(self).disk_map().insert(v, Seq::empty()),
            final(self).sealed_list() == old(self).sealed_list(),
            final(self).old_bytes() == old(self).old_bytes(),
            final(self).min_ver() == old(self).min_ver(),
            final(self).active_bytes() == 0,
            final(self).disk_bytes() == old(self).disk_bytes(),
    {
        self.current_ver = self.current_ver + 1;
        self.active = true;
        let ghost d2 = self.disk@.insert(self.current_ver, Seq::empty());
        proof {
            self.disk@ = d2;
        }
        proof {
            let newv = self.current_ver;
            assert forall|i: int| 0 <= i < old(self).sealed@.len() implies #[trigger] old(
                self,
            ).sealed@[i] < newv by {
                if i < old(self).sealed@.len() - 1 {
                    assert(old(self).sealed@[i] < old(self).sealed@[old(self).sealed@.len() - 1]);
                }
            }
            assert(!old(self).disk@.contains_key(newv)) by {
                if old(self).disk@.contains_key(newv) {
                    assert(old(self).all_versions().contains(newv));
                    let i = choose|i: int|
                        0 <= i < old(self).all_versions().len() && old(self).all_versions()[i]
                            == newv;
                    assert(old(self).sealed@[i] < newv);
                }
            }
            assert forall|v2: u64| #[trigger] old(self).disk@.contains_key(v2) implies self.disk@
                .contains_key(v2) && self.disk@[v2].len() >= old(self).disk@[v2].len()
                && self.disk@[v2].take(old(self).disk@[v2].len() as int) == old(
                self,
            ).disk@[v2] by {
                assert(v2 != newv);
                assert(self.disk@[v2] == old(self).disk@[v2]);
                assert(old(self).disk@[v2].take(old(self).disk@[v2].len() as int) =~= old(
                    self,
                ).disk@[v2]);
            }
            assert(forall|i: int|
                0 <= i < self.all_versions().len() - 1 ==> #[trigger] self.all_versions()[i]
                    == old(self).all_versions()[i]);
            assert(self.all_versions().drop_last() =~= old(self).all_versions());
            lemma_records_of_same(self.disk@, old(self).disk@, old(self).all_versions());
            assert(segc(Seq::<OpModel>::empty()) =~= Seq::<char>::empty());
            assert(self.records() =~= old(self).records() + self.disk@[newv]);
            assert(self.records() =~= old(self).records());
            lemma_index_ok_extend(self.index@, old(self).disk@, self.disk@, self.live());
            assert forall|v2: u64| #[trigger] self.disk@.contains_key(v2) implies
                self.all_versions().contains(v2) by {
                if v2 == newv {
                    assert(self.all_versions().last() == newv);
                } else {
                    let i = choose|i: int|
                        0 <= i < old(self).all_versions().len() && old(self).all_versions()[i]
                            == v2;
                    assert(self.all_versions()[i] == v2);
                }
            }
            assert forall|v2: u64| self.all_versions().contains(v2) implies #[trigger] self.disk@
                .contains_key(v2) by {
                let i = choose|i: int|
                    0 <= i < self.all_versions().len() && self.all_versions()[i] == v2;
                if i < self.all_versions().len() - 1 {
                    assert(old(self).all_versions()[i] == v2);
                }
            }
        }
        self.current_len = 0;
        proof {
            let newv = self.current_ver;
            assert(segc(Seq::<OpModel>::empty()) =~= Seq::<char>::empty());
            assert(blen(Seq::<char>::empty()) == 0);
            assert(old(self).all_versions()[old(self).all_versions().len() - 1] == old(
                self,
            ).current_ver);
            assert(old(self).all_versions().contains(old(self).current_ver));
            assert(old(self).disk@.contains_key(old(self).current_ver));
            assert(self.min_version <= old(self).current_ver);
            assert forall|v2: u64| #[trigger] self.disk@.contains_key(v2) implies self.min_version
                <= v2 by {
                if v2 != newv {
                    assert(old(self).disk@.contains_key(v2));
                }
            }
            assert(forall|i: int|
                0 <= i < old(self).all_versions().len() ==> self.disk@[#[trigger] old(
                    self,
                ).all_versions()[i]] == old(self).disk@[old(self).all_versions()[i]]);
            lemma_records_of_same(self.disk@, old(self).disk@, old(self).all_versions());
            assert(self.all_versions().drop_last() =~= old(self).all_versions());
            assert(self.all_versions().last() == newv);
            assert(self.records() =~= old(self).records() + self.disk@[newv]);
            assert(self.records() =~= old(self).records());
            assert(self.disk_bytes() == old(self).disk_bytes());
        }
        self.current_ver
    }

    /// Append one record to the active segment model and keep the invariant.
    /// Shared tail of `set` and `remove`.
    proof fn lemma_append_active(old_self: Self, new_disk: Map<u64, Seq<OpModel>>, op: OpModel)
        requires
            old_self.wf(),
            old_self.is_active(),
            new_disk == old_self.disk@.insert(
                old_self.current_ver,
                old_self.disk@[old_self.current_ver].push(op),
            ),
        ensures
            index_ok(old_self.index@, new_disk, old_self.live()),
            records_of(new_disk, old_self.all_versions()) == old_self.records().push(op),
            replay(old_self.records().push(op)) == apply_op(old_self.live(), op),
            blen(segc(new_disk[old_self.current_ver])) == blen(
                segc(old_self.disk@[old_self.current_ver]),
            ) + blen(line_of(op)),
            forall|v2: u64| #[trigger] new_disk.contains_key(v2) <==> old_self.disk@.contains_key(
                v2,
            ),
    {
        let cur = old_self.current_ver;
        let seg = old_self.disk@[cur];
        assert(old_self.all_versions().last() == cur);
        assert(old_self.disk@.contains_key(cur));
        assert forall|v2: u64| #[trigger] old_self.disk@.contains_key(v2) implies new_disk
            .contains_key(v2) && new_disk[v2].len() >= old_self.disk@[v2].len()
            && new_disk[v2].take(old_self.disk@[v2].len() as int) == old_self.disk@[v2] by {
            if v2 == cur {
                assert(new_disk[cur] == seg.push(op));
                assert(seg.push(op).take(seg.len() as int) =~= seg);
            } else {
                assert(new_disk[v2] == old_self.disk@[v2]);
                assert(old_self.disk@[v2].take(old_self.disk@[v2].len() as int) =~= old_self
                    .disk@[v2]);
            }
        }
        lemma_index_ok_extend(old_self.index@, old_self.disk@, new_disk, old_self.live());
        let vers = old_self.all_versions();
        assert(forall|i: int|
            0 <= i < vers.drop_last().len() ==> #[trigger] vers.drop_last()[i] < cur);
        assert(forall|i: int|
            0 <= i < vers.drop_last().len() ==> new_disk[#[trigger] vers.drop_last()[i]]
                == old_self.disk@[vers.drop_last()[i]]);
        lemma_records_of_same(new_disk, old_self.disk@, vers.drop_last());
        assert(records_of(new_disk, vers) == records_of(new_disk, vers.drop_last())
            + new_disk[cur]);
        assert(old_self.records() == records_of(old_self.disk@, vers.drop_last()) + seg);
        assert(records_of(new_disk, vers.drop_last()) + seg.push(op) =~= (records_of(
            new_disk,
            vers.drop_last(),
        ) + seg).push(op));
        assert(records_of(new_disk, vers) == old_self.records().push(op));
        assert(old_self.records().push(op).drop_last() =~= old_self.records());
        assert(old_self.records().push(op).last() == op);
        lemma_segc_push(seg, op);
        crate::codec::lemma_blen_concat(segc(seg), line_of(op));
    }

    /// Map `key` to `value`: append a `Set` record and point the index at
    /// it.  The returned line, newline included, is what the caller appends
    /// to the active segment file and flushes before answering.
    pub fn set(&mut self, key: String, value: String) -> (text: String)
        requires
            old(self).wf(),
            old(self).is_active(),
            old(self).active_bytes() + blen(
                line_of(OpModel::Put { key: key@, value: value@ }),
            ) <= u64::MAX,
        ensures
            final(self).wf(),
            final(self).is_active(),
            text@ == line_of(OpModel::Put { key: key@, value: value@ }),
            final(self).live() == old(self).live().insert(key@, value@),
            final(self).disk_map() == old(self).disk_map().insert(
                old(self).version(),
                old(self).disk_map()[old(self).version()].push(
                    OpModel::Put { key: key@, value: value@ },
                ),
            ),
            final(self).version() == old(self).version(),
            final(self).sealed_list() == old(self).sealed_list(),
            final(self).active_bytes() as int == old(self).active_bytes() + blen(
                line_of(OpModel::Put { key: key@, value: value@ }),
            ),
            final(self).old_bytes() == old(self).old_bytes(),
            final(self).min_ver() == old(self).min_ver(),
            final(self).index_map() == old(self).index_map().insert(
                key@,
                InMemIndex { version: old(self).version(), start_pos: old(self).active_bytes() },
            ),
    {
        let op = Op::Put { key: key.clone(), value };
        let mut text = encode_op(&op);
        crate::codec::push_char(&mut text, '\n');
        let l = crate::codec::byte_len(text.as_str()) as u64;
        proof {
            assert(text@ == line_of(op@));
        }
        let e = InMemIndex { version: self.current_ver, start_pos: self.current_len };
        let ghost d2 = self.disk@.insert(
            self.current_ver,
            self.disk@[self.current_ver].push(op@),
        );
        proof {
            Self::lemma_append_active(*old(self), d2, op@);
        }
        self.index.insert(key, e);
        self.current_len = self.current_len + l;
        self.disk = Ghost(d2);
        proof {
            let om = op@;
            let cur = old(self).current_ver;
            let seg = old(self).disk@[cur];
            assert(self.all_versions() =~= old(self).all_versions());
            assert(self.records() == old(self).records().push(om));
            assert(self.live() == old(self).live().insert(key@, value@));
            assert(entry_ok(e, d2, key@, value@)) by {
                let i = seg.len() as int;
                assert(d2[cur] == seg.push(om));
                assert(d2[cur][i] == om);
                assert(d2[cur].take(i) =~= seg);
                assert(e.start_pos as int == blen(segc(d2[cur].take(i))));
            }
            lemma_index_ok_put(old(self).index@, d2, old(self).live(), key@, value@, e);
        }
        text
    }

    /// Remove `key`.  If the key is live, appends an `Rm` record, drops it
    /// from the index and hands the record line back to be appended and
    /// flushed; if not, fails with `KeyNotFound` and changes nothing.
    pub fn remove(&mut self, key: String) -> (res: Result<String, KvsError>)
        requires
            old(self).wf(),
            old(self).is_active(),
            old(self).active_bytes() + blen(line_of(OpModel::Rm { key: key@ })) <= u64::MAX,
        ensures
            final(self).wf(),
            final(self).is_active(),
            old(self).live().contains_key(key@) ==> (res matches Ok(text) && text@ == line_of(
                OpModel::Rm { key: key@ },
            ) && final(self).live() == old(self).live().remove(key@) && final(self).disk_map()
                == old(self).disk_map().insert(
                old(self).version(),
                old(self).disk_map()[old(self).version()].push(OpModel::Rm { key: key@ }),
            ) && final(self).version() == old(self).version() && final(self).sealed_list() == old(
                self,
            ).sealed_list() && final(self).active_bytes() as int == old(self).active_bytes()
                + blen(line_of(OpModel::Rm { key: key@ })) && final(self).old_bytes() == old(
                self,
            ).old_bytes() && final(self).min_ver() == old(self).min_ver()),
            !old(self).live().contains_key(key@) ==> (res matches Err(e) && e
                == KvsError::KeyNotFound && *final(self) == *old(self)),
    {
        if !self.index.contains(&key) {
            proof {
                assert(!old(self).live().contains_key(key@));
            }
            return Err(KvsError::KeyNotFound);
        }
        proof {
            assert(old(self).live().contains_key(key@));
        }
        self.index.remove(&key);
        let op = Op::Rm { key };
        let mut text = encode_op(&op);
        crate::codec::push_char(&mut text, '\n');
        let l = crate::codec::byte_len(text.as_str()) as u64;
        proof {
            assert(text@ == line_of(op@));
        }
        let ghost d2 = self.disk@.insert(
            self.current_ver,
            self.disk@[self.current_ver].push(op@),
        );
        proof {
            Self::lemma_append_active(*old(self), d2, op@);
        }
        self.current_len = self.current_len + l;
        self.disk = Ghost(d2);
        proof {
            let om = op@;
            assert(self.all_versions() =~= old(self).all_versions());
            assert(self.records() == old(self).records().push(om));
            lemma_index_ok_rm(old(self).index@, d2, old(self).live(), om->Rm_key);
        }
        Ok(text)
    }
}

/// The versions named by a list of segment files.
pub open spec fn vers_of(cs: Seq<(u64, String)>) -> Seq<u64> {
    cs.map_values(|p: (u64, String)| p.0)
}

/// Total byte count of a list of segment files.
pub open spec fn contents_bytes(cs: Seq<(u64, String)>) -> int
    decreases cs.len(),
{
    if cs.len() == 0 {
        0
    } else {
        contents_bytes(cs.drop_last()) + blen(cs.last().1@)
    }
}

/// Replay one parsed segment into the index, tracking byte offsets.
fn replay_segment(
    index: &mut StrMap<InMemIndex>,
    ops: &Vec<Op>,
    ver: u64,
    Ghost(disk): Ghost<Map<u64, Seq<OpModel>>>,
    Ghost(rep): Ghost<Seq<OpModel>>,
)
    requires
        old(index).wf(),
        index_ok(old(index)@, disk, replay(rep)),
        disk.contains_key(ver),
        disk[ver] == ops_model(ops@),
        blen(segc(ops_model(ops@))) <= usize::MAX,
    ensures
        final(index).wf(),
        index_ok(final(index)@, disk, replay(rep + ops_model(ops@))),
{
    let n = ops.len();
    let mut idx: usize = 0;
    let mut off: usize = 0;
    proof {
        assert(ops_model(ops@).take(0) =~= Seq::<OpModel>::empty());
        assert(rep + ops_model(ops@).take(0) =~= rep);
        assert(segc(Seq::<OpModel>::empty()) =~= Seq::<char>::empty());
    }
    while idx < n
        invariant
            idx <= n,
            n == ops@.len(),
            index.wf(),
            index_ok(index@, disk, replay(rep + ops_model(ops@).take(idx as int))),
            off as int == blen(segc(ops_model(ops@).take(idx as int))),
            disk.contains_key(ver),
            disk[ver] == ops_model(ops@),
            blen(segc(ops_model(ops@))) <= usize::MAX,
        decreases n - idx,
    {
        let ghost om = ops_model(ops@);
        let ghost pre = rep + om.take(idx as int);
        let op = &ops[idx];
        let text = encode_op(op);
        let l = crate::codec::byte_len(text.as_str());
        proof {
            assert(om[idx as int] == op@);
            assert(om.take(idx as int + 1) =~= om.take(idx as int).push(op@));
            lemma_segc_push(om.take(idx as int), op@);
            crate::codec::lemma_blen_concat(segc(om.take(idx as int)), line_of(op@));
            assert(line_of(op@) =~= enc_op(op@) + seq!['\n']);
            crate::codec::lemma_blen_concat(enc_op(op@), seq!['\n']);
            assert(blen(seq!['\n']) == 1) by {
                assert(seq!['\n'].drop_first() =~= Seq::<char>::empty());
                assert(seq!['\n'][0] == '\n');
                assert(('\n' as u32) < 0x80);
                assert(blen(Seq::<char>::empty()) == 0);
            }
            assert(om =~= om.take(idx as int + 1) + om.skip(idx as int + 1));
            lemma_segc_concat(om.take(idx as int + 1), om.skip(idx as int + 1));
            crate::codec::lemma_blen_concat(
                segc(om.take(idx as int + 1)),
                segc(om.skip(idx as int + 1)),
            );
            crate::codec::lemma_blen_bounds(segc(om.skip(idx as int + 1)));
            assert(off + l + 1 <= blen(segc(om)));
            assert(pre.push(op@) =~= rep + om.take(idx as int + 1));
            assert(pre.push(op@).drop_last() =~= pre);
        }
        let ghost ixpre = index@;
        match op {
            Op::Put { key, value } => {
                let e = InMemIndex { version: ver, start_pos: off as u64 };
                index.insert(key.clone(), e);
                proof {
                    assert(entry_ok(e, disk, key@, value@)) by {
                        assert(disk[ver].take(idx as int) =~= om.take(idx as int));
                        assert(disk[ver][idx as int] == (OpModel::Put {
                            key: key@,
                            value: value@,
                        }));
                        assert(e.start_pos as int == blen(segc(disk[ver].take(idx as int))));
                    }
                    lemma_index_ok_put(ixpre, disk, replay(pre), key@, value@, e);
                    assert(replay(pre.push(op@)) == replay(pre).insert(key@, value@));
                }
            }
            Op::Rm { key } => {
                index.remove(key);
                proof {
                    lemma_index_ok_rm(ixpre, disk, replay(pre), key@);
                    assert(replay(pre.push(op@)) == replay(pre).remove(key@));
                }
            }
        }
        off = off + l + 1;
        idx = idx + 1;
    }
    proof {
        assert(ops_model(ops@).take(n as int) =~= ops_model(ops@));
    }
}

impl KvStoreWriter {
    /// Open a store from the segment files found on disk: `contents` holds
    /// each file's version and full text, in ascending version order.
    /// Replays every record to rebuild the index, then opens a fresh active
    /// segment under the next version; the caller creates its file.
    pub fn new(contents: Vec<(u64, String)>) -> (res: Result<KvStoreWriter, KvsError>)
        requires
            forall|i: int, j: int|
                0 <= i < j < contents@.len() ==> contents@[i].0 < contents@[j].0,
            forall|i: int| 0 <= i < contents@.len() ==> #[trigger] contents@[i].0 < u64::MAX,
            contents_bytes(contents@) <= u64::MAX,
        ensures
            res matches Ok(w) ==> {
                &&& w.wf()
                &&& w.is_active()
                &&& w.active_bytes() == 0
                &&& w.min_ver() == 0
                &&& w.old_bytes() as int == contents_bytes(contents@)
                &&& w.sealed_list() == vers_of(contents@)
                &&& forall|i: int|
                    0 <= i < contents@.len() ==> contents@[i].1@ == segc(
                        w.disk_map()[#[trigger] contents@[i].0],
                    )
                &&& w.version() as int == if contents@.len() == 0 {
                    1
                } else {
                    contents@.last().0 + 1
                }
                &&& w.disk_map()[w.version()] == Seq::<OpModel>::empty()
                &&& w.live() == replay(records_of(w.disk_map(), vers_of(contents@)))
            },
            res matches Err(e) ==> (exists|i: int|
                0 <= i < contents@.len() && (forall|rs: Seq<OpModel>|
                    (#[trigger] contents@[i]).1@ != #[trigger] segc(rs))) && e
                matches KvsError::SerdeError(_),
            (forall|j: int|
                0 <= j < contents@.len() ==> exists|rs: Seq<OpModel>|
                    (#[trigger] contents@[j]).1@ == #[trigger] segc(rs)) ==> res matches Ok(_),
    {
        let n = contents.len();
        let mut index: StrMap<InMemIndex> = StrMap::new();
        let mut sealed: Vec<u64> = Vec::new();
        let mut total: u64 = 0;
        let ghost mut disk: Map<u64, Seq<OpModel>> = Map::empty();
        let ghost mut rep: Seq<OpModel> = Seq::empty();
        let mut i: usize = 0;
        proof {
            assert(sealed@ =~= vers_of(contents@.take(0)));
            assert(contents@.take(0) =~= Seq::<(u64, String)>::empty());
            assert(rep =~= records_of(disk, sealed@));
        }
        while i < n
            invariant
                i <= n,
                n == contents@.len(),
                forall|a: int, b: int|
                    0 <= a < b < contents@.len() ==> contents@[a].0 < contents@[b].0,
                forall|a: int| 0 <= a < contents@.len() ==> #[trigger] contents@[a].0 < u64::MAX,
                contents_bytes(contents@) <= u64::MAX,
                sealed@ == vers_of(contents@.take(i as int)),
                total as int == contents_bytes(contents@.take(i as int)),
                forall|v: u64| #[trigger] disk.contains_key(v) <==> sealed@.contains(v),
                forall|a: int|
                    0 <= a < i ==> contents@[a].1@ == segc(disk[#[trigger] contents@[a].0]),
                rep == records_of(disk, sealed@),
                index.wf(),
                index_ok(index@, disk, replay(rep)),
            decreases n - i,
        {
            let ver = contents[i].0;
            let tl = crate::codec::byte_len(contents[i].1.as_str()) as u64;
            proof {
                assert(contents@.take(i as int + 1).drop_last() =~= contents@.take(i as int));
                assert(contents@.take(i as int + 1).last() == contents@[i as int]);
                assert(contents@ =~= contents@.take(i as int + 1) + contents@.skip(i as int + 1));
                lemma_contents_bytes_concat(
                    contents@.take(i as int + 1),
                    contents@.skip(i as int + 1),
                );
                lemma_contents_bytes_nonneg(contents@.skip(i as int + 1));
                assert(total + tl <= u64::MAX);
            }
            match parse_segment(contents[i].1.as_str()) {
                Some(ops) => {
                    proof {
                        assert(!sealed@.contains(ver)) by {
                            if sealed@.contains(ver) {
                                let a = choose|a: int|
                                    0 <= a < sealed@.len() && sealed@[a] == ver;
                                assert(contents@.take(i as int)[a].0 == ver);
                                assert(contents@[a].0 < contents@[i as int].0);
                            }
                        }
                        assert(!disk.contains_key(ver));
                    }
                    let ghost d2 = disk.insert(ver, ops_model(ops@));
                    proof {
                        assert forall|v2: u64| #[trigger] disk.contains_key(v2) implies d2
                            .contains_key(v2) && d2[v2].len() >= disk[v2].len() && d2[v2].take(
                            disk[v2].len() as int,
                        ) == disk[v2] by {
                            assert(v2 != ver);
                            assert(d2[v2] == disk[v2]);
                            assert(disk[v2].take(disk[v2].len() as int) =~= disk[v2]);
                        }
                        lemma_index_ok_extend(index@, disk, d2, replay(rep));
                        assert(forall|a: int|
                            0 <= a < sealed@.len() ==> d2[#[trigger] sealed@[a]]
                                == disk[sealed@[a]]);
                        lemma_records_of_same(d2, disk, sealed@);
                        disk = d2;
                    }
                    sealed.push(ver);
                    proof {
                        assert(sealed@.drop_last() =~= vers_of(contents@.take(i as int)));
                        assert(sealed@ =~= vers_of(contents@.take(i as int + 1)));
                        assert(records_of(disk, sealed@) == records_of(
                            disk,
                            sealed@.drop_last(),
                        ) + disk[ver]);
                    }
                    replay_segment(&mut index, &ops, ver, Ghost(disk), Ghost(rep));
                    proof {
                        rep = rep + ops_model(ops@);
                        assert(rep == records_of(disk, sealed@));
                    }
                    total = total + tl;
                    i = i + 1;
                }
                None => {
                    proof {
                        assert(0 <= i < contents@.len() && (forall|rs: Seq<OpModel>|
                            contents@[i as int].1@ != #[trigger] segc(rs)));
                    }
                    return Err(
                        KvsError::SerdeError(String::from_str("invalid record in segment file")),
                    );
                }
            }
        }
        proof {
            assert(contents@.take(n as int) =~= contents@);
        }
        let cur: u64 = if n == 0 {
            1
        } else {
            contents[n - 1].0 + 1
        };
        proof {
            assert(n > 0 ==> contents@[n - 1] == contents@.last());
            assert forall|a: int| 0 <= a < sealed@.len() implies #[trigger] sealed@[a] < cur by {
                assert(sealed@[a] == contents@[a].0);
                if a < n - 1 {
                    assert(contents@[a].0 < contents@[n - 1].0);
                }
            }
            assert(!sealed@.contains(cur)) by {
                if sealed@.contains(cur) {
                    let a = choose|a: int| 0 <= a < sealed@.len() && sealed@[a] == cur;
                }
            }
            assert(!disk.contains_key(cur));
        }
        let ghost d2 = disk.insert(cur, Seq::<OpModel>::empty());
        proof {
            assert forall|v2: u64| #[trigger] disk.contains_key(v2) implies d2.contains_key(v2)
                && d2[v2].len() >= disk[v2].len() && d2[v2].take(disk[v2].len() as int)
                == disk[v2] by {
                assert(v2 != cur);
                assert(d2[v2] == disk[v2]);
                assert(disk[v2].take(disk[v2].len() as int) =~= disk[v2]);
            }
            lemma_index_ok_extend(index@, disk, d2, replay(rep));
            assert(forall|a: int|
                0 <= a < sealed@.len() ==> d2[#[trigger] sealed@[a]] == disk[sealed@[a]]);
            lemma_records_of_same(d2, disk, sealed@);
        }
        let w = KvStoreWriter {
            index,
            sealed,
            current_ver: cur,
            active: true,
            current_len: 0,
            old_log_len: total,
            min_version: 0,
            disk: Ghost(d2),
        };
        proof {
            assert(w.all_versions() =~= sealed@.push(cur));
            assert(w.all_versions().drop_last() =~= sealed@);
            assert(w.records() == records_of(d2, sealed@) + d2[cur]);
            assert(segc(Seq::<OpModel>::empty()) =~= Seq::<char>::empty());
            assert(w.records() =~= rep);
            assert(w.live() == replay(rep));
            assert(records_of(d2, sealed@) + d2[cur] =~= records_of(d2, sealed@));
            assert(records_of(d2, sealed@) == rep);
            assert(sealed@ == vers_of(contents@));
            assert forall|v2: u64| #[trigger] w.disk@.contains_key(v2) implies w.all_versions()
                .contains(v2) by {
                if v2 == cur {
                    assert(w.all_versions().last() == cur);
                } else {
                    assert(sealed@.contains(v2));
                    let a = choose|a: int| 0 <= a < sealed@.len() && sealed@[a] == v2;
                    assert(w.all_versions()[a] == v2);
                }
            }
            assert forall|v2: u64| w.all_versions().contains(v2) implies #[trigger] w.disk@
                .contains_key(v2) by {
                let a = choose|a: int|
                    0 <= a < w.all_versions().len() && w.all_versions()[a] == v2;
                if a < w.all_versions().len() - 1 {
                    assert(sealed@[a] == v2);
                }
            }
            assert(w.wf());
            assert(forall|a: int|
                0 <= a < contents@.len() ==> contents@[a].0 != cur && d2[#[trigger] contents@[a].0]
                    == disk[contents@[a].0]);
        }
        Ok(w)
    }
}

/// The handed file texts are exactly the sealed segments of the store.
pub open spec fn contents_match(
    disk: Map<u64, Seq<OpModel>>,
    sealed: Seq<u64>,
    cs: Seq<(u64, String)>,
) -> bool {
    cs.len() == sealed.len() && (forall|i: int|
        0 <= i < cs.len() ==> (#[trigger] cs[i]).0 == sealed[i] && cs[i].1@ == segc(
            disk[sealed[i]],
        ))
}

/// A sequence of `Set` records with pairwise distinct keys: the shape of a
/// compacted segment.
pub open spec fn put_pairs(rs: Seq<OpModel>) -> bool {
    &&& forall|i: int| 0 <= i < rs.len() ==> (#[trigger] rs[i]) is Put
    &&& forall|i: int, j: int|
        0 <= i < j < rs.len() ==> (#[trigger] rs[i])->Put_key != (#[trigger] rs[j])->Put_key
}

/// The `Set` records writing the given pairs in order.
pub open spec fn pair_records(ps: Seq<(String, String)>) -> Seq<OpModel> {
    ps.map_values(|p: (String, String)| OpModel::Put { key: p.0@, value: p.1@ })
}

/// All records of a list of parsed segments, in order.
pub open spec fn flat_ops(ps: Seq<Vec<Op>>) -> Seq<OpModel>
    decreases ps.len(),
{
    if ps.len() == 0 {
        Seq::empty()
    } else {
        flat_ops(ps.drop_last()) + ops_model(ps.last()@)
    }
}

/// Two record sequences with the same segment text are the same.
pub proof fn lemma_segc_injective(a: Seq<OpModel>, b: Seq<OpModel>)
    requires
        segc(a) == segc(b),
    ensures
        a == b,
{
    assert(segc(a) == segc(b) + Seq::<char>::empty()) by {
        assert(segc(b) + Seq::<char>::empty() =~= segc(b));
    }
    lemma_segc_split(a, b, Seq::<char>::empty());
    if a != b {
        let rest = a.skip(b.len() as int);
        assert(segc(rest) =~= Seq::<char>::empty());
        assert(segc(rest).len() >= line_of(rest[0]).len());
        assert(false);
    }
}

/// Parsed segments that match the store's sealed files carry its records.
proof fn lemma_flat_is_records(ps: Seq<Vec<Op>>, disk: Map<u64, Seq<OpModel>>, sealed: Seq<u64>)
    requires
        ps.len() == sealed.len(),
        forall|j: int| 0 <= j < ps.len() ==> ops_model((#[trigger] ps[j])@) == disk[sealed[j]],
    ensures
        flat_ops(ps) == records_of(disk, sealed),
    decreases ps.len(),
{
    if ps.len() > 0 {
        assert(forall|j: int|
            0 <= j < ps.drop_last().len() ==> ops_model((#[trigger] ps.drop_last()[j])@)
                == disk[sealed.drop_last()[j]]);
        lemma_flat_is_records(ps.drop_last(), disk, sealed.drop_last());
        assert(ps[ps.len() - 1] == ps.last());
        assert(sealed[sealed.len() - 1] == sealed.last());
    }
}

impl KvStoreWriter {
    /// Merge all sealed segments into one: replay them, then write one `Set`
    /// record per live key into a new segment under the next version.
    /// `contents` holds the text of each sealed segment, read back by the
    /// caller in the order `sealed_versions` gives.  The caller writes the
    /// returned text to the new segment's file, flushes it, and only then
    /// deletes the old segment files; readers learn of the deletion through
    /// `min_live_version`.
    pub fn compact(&mut self, contents: Vec<(u64, String)>) -> (res: Result<String, KvsError>)
        requires
            old(self).wf(),
            !old(self).is_active(),
            old(self).version() < u64::MAX,
            vers_of(contents@) == old(self).sealed_list(),
        ensures
            res matches Err(e) ==> *final(self) == *old(self) && (e
                matches KvsError::SerdeError(_)),
            contents_match(old(self).disk_map(), old(self).sealed_list(), contents@)
                ==> res matches Ok(_),
            res matches Ok(out) ==> {
                &&& final(self).wf()
                &&& !final(self).is_active()
                &&& final(self).version() == old(self).version() + 1
                &&& final(self).sealed_list() == seq![final(self).version()]
                &&& final(self).min_ver() == final(self).version()
                &&& final(self).old_bytes() == 0
                &&& final(self).active_bytes() == 0
                &&& out@ == segc(final(self).disk_map()[final(self).version()])
                &&& put_pairs(final(self).disk_map()[final(self).version()])
                &&& final(self).disk_bytes() == blen(out@)
                &&& final(self).live() == replay(
                    final(self).disk_map()[final(self).version()],
                )
                &&& (contents_match(old(self).disk_map(), old(self).sealed_list(), contents@)
                    ==> final(self).live() == old(self).live())
            },
    {
        let n = contents.len();
        let mut parsed: Vec<Vec<Op>> = Vec::new();
        let mut i: usize = 0;
        while i < n
            invariant
                i <= n,
                n == contents@.len(),
                parsed@.len() == i,
                forall|j: int|
                    0 <= j < i ==> contents@[j].1@ == segc(ops_model((#[trigger] parsed@[j])@)),
            decreases n - i,
        {
            match parse_segment(contents[i].1.as_str()) {
                Some(ops) => {
                    parsed.push(ops);
                    i = i + 1;
                }
                None => {
                    return Err(
                        KvsError::SerdeError(String::from_str("invalid record in segment file")),
                    );
                }
            }
        }
        let mut dict: StrMap<String> = StrMap::new();
        let ghost mut rep2: Seq<OpModel> = Seq::empty();
        proof {
            assert(flat_ops(parsed@.take(0)) =~= Seq::<OpModel>::empty());
            assert(rep2 =~= flat_ops(parsed@.take(0)));
        }
        let mut s: usize = 0;
        while s < n
            invariant
                s <= n,
                n == contents@.len(),
                parsed@.len() == n,
                dict.wf(),
                dict@ == replay(rep2),
                rep2 == flat_ops(parsed@.take(s as int)),
            decreases n - s,
        {
            let segops = &parsed[s];
            let m0 = segops.len();
            let mut t: usize = 0;
            proof {
                assert(rep2 + ops_model(segops@).take(0) =~= rep2);
            }
            while t < m0
                invariant
                    t <= m0,
                    m0 == segops@.len(),
                    dict.wf(),
                    dict@ == replay(rep2 + ops_model(segops@).take(t as int)),
                decreases m0 - t,
            {
                let ghost pre = rep2 + ops_model(segops@).take(t as int);
                let op = &segops[t];
                proof {
                    assert(ops_model(segops@)[t as int] == op@);
                    assert(ops_model(segops@).take(t as int + 1) =~= ops_model(segops@).take(
                        t as int,
                    ).push(op@));
                    assert(pre.push(op@) =~= rep2 + ops_model(segops@).take(t as int + 1));
                    assert(pre.push(op@).drop_last() =~= pre);
                }
                match op {
                    Op::Put { key, value } => {
                        dict.insert(key.clone(), value.clone());
                    }
                    Op::Rm { key } => {
                        dict.remove(key);
                    }
                }
                t = t + 1;
            }
            proof {
                assert(ops_model(segops@).take(m0 as int) =~= ops_model(segops@));
                assert(parsed@.take(s as int + 1).drop_last() =~= parsed@.take(s as int));
                assert(parsed@.take(s as int + 1).last() == parsed@[s as int]);
                rep2 = rep2 + ops_model(segops@);
                assert(rep2 =~= flat_ops(parsed@.take(s as int + 1)));
            }
            s = s + 1;
        }
        proof {
            assert(parsed@.take(n as int) =~= parsed@);
        }
        self.current_ver = self.current_ver + 1;
        let newver = self.current_ver;
        let m = dict.len();
        let mut out = String::new();
        let mut newindex: StrMap<InMemIndex> = StrMap::new();
        let ghost mut newrecs: Seq<OpModel> = Seq::empty();
        let mut t: usize = 0;
        proof {
            assert(newrecs =~= pair_records(dict.pairs@.take(0)));
            assert(segc(newrecs) =~= Seq::<char>::empty());
            assert(kv_map(dict.pairs@.take(0)) =~= Map::<Seq<char>, Seq<char>>::empty());
            assert(replay(newrecs) =~= Map::<Seq<char>, Seq<char>>::empty());
        }
        while t < m
            invariant
                t <= m,
                m == dict.pairs@.len(),
                dict.wf(),
                out@ == segc(newrecs),
                newrecs == pair_records(dict.pairs@.take(t as int)),
                newindex.wf(),
                index_ok(
                    newindex@,
                    Map::<u64, Seq<OpModel>>::empty().insert(newver, newrecs),
                    kv_map(dict.pairs@.take(t as int)),
                ),
                replay(newrecs) == kv_map(dict.pairs@.take(t as int)),
            decreases m - t,
        {
            let ghost oldrecs = newrecs;
            let ghost olddisk1 = Map::<u64, Seq<OpModel>>::empty().insert(newver, oldrecs);
            let pos = crate::codec::byte_len(out.as_str()) as u64;
            let op = Op::Put { key: dict.pairs[t].0.clone(), value: dict.pairs[t].1.clone() };
            let mut textline = encode_op(&op);
            crate::codec::push_char(&mut textline, '\n');
            out.append(textline.as_str());
            let e = InMemIndex { version: newver, start_pos: pos };
            let ghost ixpre = newindex@;
            newindex.insert(dict.pairs[t].0.clone(), e);
            proof {
                newrecs = oldrecs.push(op@);
                let disk1 = Map::<u64, Seq<OpModel>>::empty().insert(newver, newrecs);
                lemma_segc_push(oldrecs, op@);
                assert(textline@ == line_of(op@));
                assert(out@ == segc(newrecs));
                assert(newrecs =~= pair_records(dict.pairs@.take(t as int + 1)));
                assert forall|v2: u64| #[trigger] olddisk1.contains_key(v2) implies disk1
                    .contains_key(v2) && disk1[v2].len() >= olddisk1[v2].len() && disk1[v2].take(
                    olddisk1[v2].len() as int,
                ) == olddisk1[v2] by {
                    assert(v2 == newver);
                    assert(disk1[newver] == oldrecs.push(op@));
                    assert(oldrecs.push(op@).take(oldrecs.len() as int) =~= oldrecs);
                }
                lemma_index_ok_extend(ixpre, olddisk1, disk1, kv_map(dict.pairs@.take(t as int)));
                let k = dict.pairs@[t as int].0@;
                let v = dict.pairs@[t as int].1@;
                assert(entry_ok(e, disk1, k, v)) by {
                    let iw = oldrecs.len() as int;
                    assert(disk1[newver][iw] == op@);
                    assert(disk1[newver].take(iw) =~= oldrecs);
                    assert(e.start_pos as int == blen(segc(disk1[newver].take(iw))));
                }
                lemma_index_ok_put(ixpre, disk1, kv_map(dict.pairs@.take(t as int)), k, v, e);
                assert(dict.pairs@.take(t as int + 1).drop_last() =~= dict.pairs@.take(t as int));
                assert(dict.pairs@.take(t as int + 1).last() == dict.pairs@[t as int]);
                assert(kv_map(dict.pairs@.take(t as int + 1)) == kv_map(
                    dict.pairs@.take(t as int),
                ).insert(k, v));
                assert(newrecs.drop_last() =~= oldrecs);
                assert(replay(newrecs) == replay(oldrecs).insert(k, v));
            }
            t = t + 1;
        }
        proof {
            assert(dict.pairs@.take(m as int) =~= dict.pairs@);
        }
        let mut sv: Vec<u64> = Vec::new();
        sv.push(newver);
        self.sealed = sv;
        self.index = newindex;
        self.min_version = newver;
        self.old_log_len = 0;
        self.disk = Ghost(Map::<u64, Seq<OpModel>>::empty().insert(newver, newrecs));
        proof {
            assert(self.sealed@ =~= seq![newver]);
            assert(self.all_versions() =~= seq![newver]);
            assert(self.all_versions().drop_last() =~= Seq::<u64>::empty());
            assert(records_of(self.disk@, Seq::<u64>::empty()) =~= Seq::<OpModel>::empty());
            assert(self.records() =~= newrecs);
            assert(seg_bytes(self.disk@, Seq::<u64>::empty()) == 0);
            assert(self.disk_bytes() == blen(segc(newrecs)));
            assert forall|v2: u64| #[trigger] self.disk@.contains_key(v2) implies self
                .all_versions().contains(v2) by {
                assert(v2 == newver);
                assert(self.all_versions()[0] == newver);
            }
            assert(put_pairs(newrecs)) by {
                assert forall|a: int, b: int| 0 <= a < b < newrecs.len() implies (
                #[trigger] newrecs[a])->Put_key != (#[trigger] newrecs[b])->Put_key by {
                    assert(newrecs[a] == (OpModel::Put {
                        key: dict.pairs@[a].0@,
                        value: dict.pairs@[a].1@,
                    }));
                    assert(newrecs[b] == (OpModel::Put {
                        key: dict.pairs@[b].0@,
                        value: dict.pairs@[b].1@,
                    }));
                    assert(dict.pairs@[a].0@ != dict.pairs@[b].0@);
                }
            }
            assert(self.live() == kv_map(dict.pairs@));
            if contents_match(old(self).disk@, old(self).sealed@, contents@) {
                assert forall|j: int| 0 <= j < parsed@.len() implies ops_model((
                #[trigger] parsed@[j])@) == old(self).disk@[old(self).sealed@[j]] by {
                    assert(contents@[j].1@ == segc(ops_model(parsed@[j]@)));
                    assert(contents@[j].1@ == segc(old(self).disk@[old(self).sealed@[j]]));
                    lemma_segc_injective(
                        ops_model(parsed@[j]@),
                        old(self).disk@[old(self).sealed@[j]],
                    );
                }
                lemma_flat_is_records(parsed@, old(self).disk@, old(self).sealed@);
                assert(rep2 == old(self).records());
                assert(kv_map(dict.pairs@) == old(self).live());
            }
        }
        Ok(out)
    }
}

impl KvStoreWriter {
    /// Where the live record of `key` stands, if the key is live: the
    /// version and byte offset a reader seeks to.
    pub fn lookup(&self, key: &String) -> (r: Option<InMemIndex>)
        requires
            self.wf(),
        ensures
            match r {
                Some(e) => self.live().contains_key(key@) && e == self.index_map()[key@]
                    && entry_ok(e, self.disk_map(), key@, self.live()[key@]),
                None => !self.live().contains_key(key@),
            },
    {
        match self.index.get(key) {
            Some(e) => Some(*e),
            None => None,
        }
    }
}

/// Interpret one line read back from a segment at an index entry's offset:
/// the value of its `Set` record.  A well-formed `Rm` line is a corrupt
/// pointer (`UnexpectedType`); anything else is a broken encoding.
/// Some record of some key maps to `v` in the line `w`.
pub open spec fn is_put_line(w: Seq<char>, v: Seq<char>) -> bool {
    exists|k: Seq<char>| w == #[trigger] line_of(OpModel::Put { key: k, value: v })
}

pub fn read_value(line_text: &str) -> (res: Result<String, KvsError>)
    ensures
        res matches Ok(v) ==> is_put_line(line_text@, v@),
        forall|k: Seq<char>, v: Seq<char>|
            line_text@ == #[trigger] line_of(OpModel::Put { key: k, value: v }) ==> (res matches Ok(
                vv,
            ) && vv@ == v),
        forall|k: Seq<char>|
            line_text@ == #[trigger] line_of(OpModel::Rm { key: k }) ==> res == Err::<
                String,
                KvsError,
            >(KvsError::UnexpectedType),
        (res matches Err(e) && e matches KvsError::SerdeError(_)) <==> (forall|op: OpModel|
            line_text@ != #[trigger] line_of(op)),
{
    let n = line_text.unicode_len();
    if n == 0 || line_text.get_char(n - 1) != '\n' {
        proof {
            assert forall|op: OpModel| line_text@ != #[trigger] line_of(op) by {
                if line_text@ == line_of(op) {
                    assert(line_text@.last() == '\n');
                }
            }
        }
        return Err(KvsError::SerdeError(String::from_str("segment line is not terminated")));
    }
    let body = line_text.substring_char(0, n - 1);
    proof {
        assert(line_text@ =~= body@.push('\n'));
    }
    match decode_op(body) {
        Some(op) => {
            proof {
                assert(line_text@ == line_of(op@));
                assert forall|op2: OpModel| line_text@ == #[trigger] line_of(op2) implies op2
                    == op@ by {
                    assert(enc_op(op2).push('\n').drop_last() =~= enc_op(op2));
                    assert(line_text@.drop_last() =~= body@);
                    assert(body@ == enc_op(op2));
                }
            }
            match op {
                Op::Put { key, value } => {
                    proof {
                        assert(op@ == OpModel::Put { key: key@, value: value@ });
                        assert(line_text@ == line_of(OpModel::Put { key: key@, value: value@ }));
                        assert(is_put_line(line_text@, value@));
                    }
                    Ok(value)
                }
                Op::Rm { key: _ } => Err(KvsError::UnexpectedType),
            }
        }
        None => {
            proof {
                assert forall|op: OpModel| line_text@ != #[trigger] line_of(op) by {
                    if line_text@ == line_of(op) {
                        assert(enc_op(op).push('\n').drop_last() =~= enc_op(op));
                        assert(line_text@.drop_last() =~= body@);
                        assert(body@ == enc_op(op));
                    }
                }
            }
            Err(KvsError::SerdeError(String::from_str("unreadable record line")))
        }
    }
}

// ------------------------------------------------------------------
// Laws of the store.
// ------------------------------------------------------------------

/// The value the last record about `k` leaves, scanning from the end.
pub open spec fn last_write(rs: Seq<OpModel>, k: Seq<char>) -> Option<Seq<char>>
    decreases rs.len(),
{
    if rs.len() == 0 {
        Option::None
    } else {
        match rs.last() {
            OpModel::Put { key, value } => if key == k {
                Option::Some(value)
            } else {
                last_write(rs.drop_last(), k)
            },
            OpModel::Rm { key } => if key == k {
                Option::None
            } else {
                last_write(rs.drop_last(), k)
            },
        }
    }
}

/// For every sequence of operations, the key's final value is the value of
/// the last `Set` of it, unless a later `Rm` removed it; a key never written
/// is absent.
pub proof fn lemma_replay_last_write(rs: Seq<OpModel>, k: Seq<char>)
    ensures
        match last_write(rs, k) {
            Option::Some(v) => replay(rs).contains_key(k) && replay(rs)[k] == v,
            Option::None => !replay(rs).contains_key(k),
        },
    decreases rs.len(),
{
    if rs.len() > 0 {
        lemma_replay_last_write(rs.drop_last(), k);
    }
}

/// Every index entry of a well-formed store points at a `Set` record of its
/// key holding the live value, inside a segment that exists on disk.
pub proof fn lemma_index_points_at_live(w: KvStoreWriter, k: Seq<char>)
    requires
        w.wf(),
        w.live().contains_key(k),
    ensures
        w.index_map().contains_key(k),
        entry_ok(w.index_map()[k], w.disk_map(), k, w.live()[k]),
        exists|i: int|
            #![trigger w.disk_map()[w.index_map()[k].version].take(i)]
            {
                let seg = w.disk_map()[w.index_map()[k].version];
                0 <= i < seg.len() && seg[i] == (OpModel::Put { key: k, value: w.live()[k] })
                    && w.index_map()[k].start_pos as int == blen(segc(seg.take(i))) && segc(seg)
                    == segc(seg.take(i)) + line_of(seg[i]) + segc(seg.skip(i + 1))
            },
{
    let e = w.index_map()[k];
    let seg = w.disk_map()[e.version];
    let i = choose|i: int|
        0 <= i < seg.len() && #[trigger] seg[i] == (OpModel::Put { key: k, value: w.live()[k] })
            && e.start_pos as int == blen(segc(seg.take(i)));
    assert(seg =~= seg.take(i) + seg.skip(i));
    lemma_segc_concat(seg.take(i), seg.skip(i));
    assert(seg.skip(i)[0] == seg[i]);
    assert(seg.skip(i).drop_first() =~= seg.skip(i + 1));
    assert(segc(seg.skip(i)) == line_of(seg[i]) + segc(seg.skip(i + 1)));
    assert(segc(seg) == segc(seg.take(i)) + (line_of(seg[i]) + segc(seg.skip(i + 1))));
    assert(segc(seg.take(i)) + (line_of(seg[i]) + segc(seg.skip(i + 1))) =~= segc(seg.take(i))
        + line_of(seg[i]) + segc(seg.skip(i + 1)));
}

/// Reopening a store from the text of its own segment files preserves the
/// value of every key: `w2` is any store that `KvStoreWriter::new` may
/// return for the files `cs`, and `cs` is what `w`'s segments hold.
pub proof fn lemma_reopen_preserves_live(
    w: KvStoreWriter,
    w2: KvStoreWriter,
    cs: Seq<(u64, String)>,
)
    requires
        w.wf(),
        contents_match(w.disk_map(), w.all_versions(), cs),
        w2.wf(),
        w2.is_active(),
        w2.sealed_list() == vers_of(cs),
        forall|i: int| 0 <= i < cs.len() ==> cs[i].1@ == segc(w2.disk_map()[(#[trigger] cs[i]).0]),
        w2.disk_map()[w2.version()] == Seq::<OpModel>::empty(),
    ensures
        w2.live() == w.live(),
{
    let vers = w.all_versions();
    assert(vers_of(cs) =~= vers);
    assert forall|i: int| 0 <= i < vers.len() implies w2.disk_map()[#[trigger] vers[i]]
        == w.disk_map()[vers[i]] by {
        assert(cs[i].0 == vers[i]);
        assert(cs[i].1@ == segc(w2.disk_map()[vers[i]]));
        assert(cs[i].1@ == segc(w.disk_map()[vers[i]]));
        lemma_segc_injective(w2.disk_map()[vers[i]], w.disk_map()[vers[i]]);
    }
    lemma_records_of_same(w2.disk_map(), w.disk_map(), vers);
    assert(w2.all_versions() =~= vers.push(w2.version()));
    assert(w2.all_versions().drop_last() =~= vers);
    assert(w2.records() == records_of(w2.disk_map(), vers) + w2.disk_map()[w2.version()]);
    assert(w2.records() =~= records_of(w2.disk_map(), vers));
    assert(w2.records() == w.records());
}

/// Bytes are counted one per character on text that stays in the one-byte
/// range.
proof fn lemma_blen_ascii(s: Seq<char>)
    requires
        forall|i: int| 0 <= i < s.len() ==> (#[trigger] s[i] as u32) < 0x80,
    ensures
        blen(s) == s.len(),
    decreases s.len(),
{
    if s.len() > 0 {
        assert(forall|i: int|
            0 <= i < s.drop_first().len() ==> (#[trigger] s.drop_first()[i] as u32) < 0x80);
        lemma_blen_ascii(s.drop_first());
    }
}

/// An escaped string costs at most six bytes per source character.
proof fn lemma_esc_blen(s: Seq<char>)
    ensures
        0 <= blen(esc(s)) <= 6 * s.len(),
    decreases s.len(),
{
    crate::codec::lemma_blen_bounds(esc(s));
    if s.len() > 0 {
        lemma_esc_blen(s.drop_first());
        crate::codec::lemma_blen_concat(esc_char(s[0]), esc(s.drop_first()));
        let c = s[0];
        crate::codec::lemma_esc_char_shape(c);
        assert(blen(esc_char(c)) <= 6) by {
            if crate::codec::escaped(c) {
                assert(forall|i: int|
                    0 <= i < esc_char(c).len() ==> (#[trigger] esc_char(c)[i] as u32) < 0x80) by {
                    assert(('\\' as u32) < 0x80);
                    assert(('"' as u32) < 0x80);
                    assert(('u' as u32) < 0x80);
                    assert(('0' as u32) < 0x80);
                    assert forall|i: int| 0 <= i < esc_char(c).len() implies (#[trigger] esc_char(
                        c,
                    )[i] as u32) < 0x80 by {
                        let d = esc_char(c)[i];
                        assert(!crate::codec::is_ctl(d));
                        if crate::codec::is_named(c) && i == 1 {
                            assert(d == crate::codec::named_code(c));
                        }
                    }
                }
                lemma_blen_ascii(esc_char(c));
            } else {
                assert(esc_char(c) == seq![c]);
                assert(esc_char(c).drop_first() =~= Seq::<char>::empty());
                assert(seq![c][0] == c);
                assert(blen(Seq::<char>::empty()) == 0);
                assert(blen(esc_char(c)) == crate::codec::char_blen(c));
            }
        }
    }
}

/// Sum of the key and value lengths of a sequence of `Set` records.
pub open spec fn pairs_footprint(rs: Seq<OpModel>) -> int
    decreases rs.len(),
{
    if rs.len() == 0 {
        0
    } else {
        pairs_footprint(rs.drop_first()) + rs[0]->Put_key.len() + rs[0]->Put_value.len()
    }
}

/// The text of one `Set` record line takes at most a constant plus six
/// bytes per key or value character.
pub proof fn lemma_put_line_blen(k: Seq<char>, v: Seq<char>)
    ensures
        0 <= blen(line_of(OpModel::Put { key: k, value: v })) <= 30 + 6 * k.len() + 6 * v.len(),
{
    let op = OpModel::Put { key: k, value: v };
    reveal_strlit("{\"Set\":{\"key\":\"");
    reveal_strlit("\",\"value\":\"");
    reveal_strlit("\"}}");
    let a = "{\"Set\":{\"key\":\""@;
    let b = "\",\"value\":\""@;
    let c = "\"}}"@;
    assert(enc_op(op) == a + esc(k) + b + esc(v) + c);
    crate::codec::lemma_blen_concat(a, esc(k));
    crate::codec::lemma_blen_concat(a + esc(k), b);
    crate::codec::lemma_blen_concat(a + esc(k) + b, esc(v));
    crate::codec::lemma_blen_concat(a + esc(k) + b + esc(v), c);
    assert(forall|i: int| 0 <= i < a.len() ==> (#[trigger] a[i] as u32) < 0x80);
    assert(forall|i: int| 0 <= i < b.len() ==> (#[trigger] b[i] as u32) < 0x80);
    assert(forall|i: int| 0 <= i < c.len() ==> (#[trigger] c[i] as u32) < 0x80);
    lemma_blen_ascii(a);
    lemma_blen_ascii(b);
    lemma_blen_ascii(c);
    lemma_esc_blen(k);
    lemma_esc_blen(v);
    assert(line_of(op) =~= enc_op(op) + seq!['\n']);
    crate::codec::lemma_blen_concat(enc_op(op), seq!['\n']);
    assert(blen(seq!['\n']) == 1) by {
        assert(seq!['\n'].drop_first() =~= Seq::<char>::empty());
        assert(seq!['\n'][0] == '\n');
        assert(('\n' as u32) < 0x80);
        assert(blen(Seq::<char>::empty()) == 0);
    }
    crate::codec::lemma_blen_bounds(line_of(op));
}

/// The text of one `Rm` record line takes at most a constant plus six
/// bytes per key character.
pub proof fn lemma_rm_line_blen(k: Seq<char>)
    ensures
        0 <= blen(line_of(OpModel::Rm { key: k })) <= 18 + 6 * k.len(),
{
    let op = OpModel::Rm { key: k };
    reveal_strlit("{\"Rm\":{\"key\":\"");
    reveal_strlit("\"}}");
    let a = "{\"Rm\":{\"key\":\""@;
    let c = "\"}}"@;
    assert(enc_op(op) == a + esc(k) + c);
    crate::codec::lemma_blen_concat(a, esc(k));
    crate::codec::lemma_blen_concat(a + esc(k), c);
    assert(forall|i: int| 0 <= i < a.len() ==> (#[trigger] a[i] as u32) < 0x80);
    assert(forall|i: int| 0 <= i < c.len() ==> (#[trigger] c[i] as u32) < 0x80);
    lemma_blen_ascii(a);
    lemma_blen_ascii(c);
    lemma_esc_blen(k);
    assert(line_of(op) =~= enc_op(op) + seq!['\n']);
    crate::codec::lemma_blen_concat(enc_op(op), seq!['\n']);
    assert(blen(seq!['\n']) == 1) by {
        assert(seq!['\n'].drop_first() =~= Seq::<char>::empty());
        assert(seq!['\n'][0] == '\n');
        assert(('\n' as u32) < 0x80);
        assert(blen(Seq::<char>::empty()) == 0);
    }
    crate::codec::lemma_blen_bounds(line_of(op));
}

/// After compaction the segment holds one `Set` record per live key, so the
/// whole on-disk byte count is bounded by a constant factor of the live
/// key/value footprint.
pub proof fn lemma_compact_footprint(rs: Seq<OpModel>)
    requires
        forall|i: int| 0 <= i < rs.len() ==> (#[trigger] rs[i]) is Put,
    ensures
        0 <= blen(segc(rs)) <= 30 * rs.len() + 6 * pairs_footprint(rs),
    decreases rs.len(),
{
    crate::codec::lemma_blen_bounds(segc(rs));
    if rs.len() > 0 {
        assert(forall|i: int|
            0 <= i < rs.drop_first().len() ==> (#[trigger] rs.drop_first()[i]) is Put);
        lemma_compact_footprint(rs.drop_first());
        crate::codec::lemma_blen_concat(line_of(rs[0]), segc(rs.drop_first()));
        lemma_put_line_blen(rs[0]->Put_key, rs[0]->Put_value);
        assert(pairs_footprint(rs.drop_first()) >= 0) by {
            lemma_pairs_footprint_nonneg(rs.drop_first());
        }
    }
}

proof fn lemma_pairs_footprint_nonneg(rs: Seq<OpModel>)
    ensures
        pairs_footprint(rs) >= 0,
    decreases rs.len(),
{
    if rs.len() > 0 {
        lemma_pairs_footprint_nonneg(rs.drop_first());
    }
}

// ------------------------------------------------------------------
// Directory traversal helpers: segment file names and version order.
// ------------------------------------------------------------------

/// Is every character a decimal digit, and is there at least one?
pub open spec fn is_digits(ds: Seq<char>) -> bool {
    ds.len() > 0 && forall|i: int|
        0 <= i < ds.len() ==> ('0' as u32) <= (#[trigger] ds[i] as u32) <= ('9' as u32)
}

/// The number the decimal digits spell.
pub open spec fn dec_val(ds: Seq<char>) -> int
    decreases ds.len(),
{
    if ds.len() == 0 {
        0
    } else {
        dec_val(ds.drop_last()) * 10 + (ds.last() as u32) - ('0' as u32)
    }
}

proof fn lemma_dec_val_nonneg(ds: Seq<char>)
    requires
        forall|i: int|
            0 <= i < ds.len() ==> ('0' as u32) <= (#[trigger] ds[i] as u32) <= ('9' as u32),
    ensures
        dec_val(ds) >= 0,
    decreases ds.len(),
{
    if ds.len() > 0 {
        assert(forall|i: int|
            0 <= i < ds.drop_last().len() ==> ('0' as u32) <= (#[trigger] ds.drop_last()[i] as u32)
                <= ('9' as u32));
        lemma_dec_val_nonneg(ds.drop_last());
    }
}

/// A longer digit prefix never spells a smaller number.
proof fn lemma_dec_val_prefix_mono(ds: Seq<char>, i: int)
    requires
        forall|j: int|
            0 <= j < ds.len() ==> ('0' as u32) <= (#[trigger] ds[j] as u32) <= ('9' as u32),
        0 <= i <= ds.len(),
    ensures
        dec_val(ds.take(i)) <= dec_val(ds),
    decreases ds.len() - i,
{
    if i < ds.len() {
        lemma_dec_val_prefix_mono(ds, i + 1);
        assert(ds.take(i + 1).drop_last() =~= ds.take(i));
        assert(ds.take(i + 1).last() == ds[i]);
        assert(forall|j: int|
            0 <= j < ds.take(i).len() ==> ('0' as u32) <= (#[trigger] ds.take(i)[j] as u32)
                <= ('9' as u32));
        lemma_dec_val_nonneg(ds.take(i));
    } else {
        assert(ds.take(i) =~= ds);
    }
}

/// The version a segment file name `<digits>.log` spells; the name of any
/// other file is refused, as is a version that does not fit.
pub fn parse_version_filename(name: &str) -> (r: Option<u64>)
    ensures
        ({
            let nl = name@.len() as int;
            let shape = nl >= 5 && name@.skip(nl - 4) == ".log"@ && is_digits(name@.take(nl - 4));
            match r {
                Some(v) => shape && v as int == dec_val(name@.take(nl - 4)) && dec_val(
                    name@.take(nl - 4),
                ) <= u64::MAX,
                None => !(shape && dec_val(name@.take(nl - 4)) <= u64::MAX),
            }
        }),
{
    let n = name.unicode_len();
    proof {
        reveal_strlit(".log");
    }
    if n < 5 {
        return None;
    }
    if !match_at(name, n - 4, ".log") {
        proof {
            assert(name@.skip(n as int - 4) =~= name@.subrange(n as int - 4, n as int));
        }
        return None;
    }
    proof {
        assert(name@.skip(n as int - 4) =~= name@.subrange(n as int - 4, n as int));
    }
    let m = n - 4;
    let ghost ds = name@.take(m as int);
    let mut v: u64 = 0;
    let mut i: usize = 0;
    while i < m
        invariant
            i <= m,
            m == name@.len() - 4,
            m >= 1,
            n == name@.len(),
            ds == name@.take(m as int),
            forall|j: int| 0 <= j < i ==> ('0' as u32) <= (#[trigger] ds[j] as u32) <= ('9' as u32),
            v as int == dec_val(ds.take(i as int)),
        decreases m - i,
    {
        let c = name.get_char(i);
        let u = c as u32;
        if u < 48 || u > 57 {
            proof {
                assert(ds[i as int] == c);
                assert(!is_digits(ds));
            }
            return None;
        }
        let d = (u - 48) as u64;
        proof {
            assert(ds.take(i as int + 1).drop_last() =~= ds.take(i as int));
            assert(ds.take(i as int + 1).last() == ds[i as int]);
        }
        if v > (u64::MAX - d) / 10 {
            proof {
                assert(dec_val(ds.take(i as int + 1)) > u64::MAX);
                if is_digits(ds) && dec_val(ds) <= u64::MAX {
                    lemma_dec_val_prefix_mono(ds, i as int + 1);
                }
            }
            return None;
        }
        v = v * 10 + d;
        i = i + 1;
    }
    proof {
        assert(ds.take(m as int) =~= ds);
        assert(is_digits(ds));
    }
    Some(v)
}

/// Sort segment versions ascending: the order segments are replayed in.
pub fn sort_versions(v: &mut Vec<u64>)
    ensures
        final(v)@.to_multiset() == old(v)@.to_multiset(),
        final(v)@.len() == old(v)@.len(),
        forall|i: int, j: int| 0 <= i < j < final(v)@.len() ==> final(v)@[i] <= final(v)@[j],
{
    broadcast use vstd::seq_lib::group_to_multiset_ensures;

    let mut out: Vec<u64> = Vec::new();
    let ghost orig = v@;
    proof {
        assert(out@.to_multiset().add(v@.to_multiset()) =~= orig.to_multiset());
    }
    while v.len() > 0
        invariant
            out@.to_multiset().add(v@.to_multiset()) == orig.to_multiset(),
            out@.len() + v@.len() == orig.len(),
            forall|i: int, j: int| 0 <= i < j < out@.len() ==> out@[i] <= out@[j],
            forall|i: int, j: int|
                0 <= i < out@.len() && 0 <= j < v@.len() ==> out@[i] <= v@[j],
        decreases v@.len(),
    {
        let n = v.len();
        let mut m: usize = 0;
        let mut k: usize = 1;
        while k < n
            invariant
                m < k <= n,
                n == v@.len(),
                forall|j: int| 0 <= j < k ==> v@[m as int] <= v@[j],
            decreases n - k,
        {
            if v[k] < v[m] {
                m = k;
            }
            k = k + 1;
        }
        let ghost vpre = v@;
        let ghost outpre = out@;
        let x = v.remove(m);
        out.push(x);
        proof {
            broadcast use vstd::seq_lib::group_to_multiset_ensures;
            broadcast use vstd::multiset::group_multiset_axioms;

            assert(v@ == vpre.remove(m as int));
            assert(out@ == outpre.push(x));
            assert(x == vpre[m as int]);
            assert(vpre.to_multiset().count(x) > 0) by {
                assert(vpre.contains(x));
            }
            assert(vpre.remove(m as int).to_multiset() =~= vpre.to_multiset().remove(x));
            assert(outpre.push(x).to_multiset() =~= outpre.to_multiset().insert(x));
            assert(out@.to_multiset().add(v@.to_multiset()) =~= outpre.to_multiset().add(
                vpre.to_multiset(),
            ));
            assert forall|i: int, j: int|
                0 <= i < out@.len() && 0 <= j < v@.len() implies out@[i] <= v@[j] by {
                let y = v@[j];
                if j < m {
                    assert(y == vpre[j]);
                } else {
                    assert(y == vpre[j + 1]);
                }
                if i < out@.len() - 1 {
                    assert(out@[i] == outpre[i]);
                } else {
                    assert(out@[i] == x);
                }
            }
            assert forall|i: int, j: int| 0 <= i < j < out@.len() implies out@[i] <= out@[j] by {
                if j < out@.len() - 1 {
                    assert(out@[i] == outpre[i] && out@[j] == outpre[j]);
                } else {
                    assert(out@[i] == outpre[i]);
                    assert(out@[j] == x);
                    assert(outpre[i] <= vpre[m as int]);
                }
            }
        }
    }
    *v = out;
}

/// Byte counts of file lists add up over concatenation.
proof fn lemma_contents_bytes_concat(a: Seq<(u64, String)>, b: Seq<(u64, String)>)
    ensures
        contents_bytes(a + b) == contents_bytes(a) + contents_bytes(b),
    decreases b.len(),
{
    if b.len() == 0 {
        assert(a + b =~= a);
    } else {
        lemma_contents_bytes_concat(a, b.drop_last());
        assert((a + b).drop_last() =~= a + b.drop_last());
        assert((a + b).last() == b.last());
    }
}

proof fn lemma_contents_bytes_nonneg(a: Seq<(u64, String)>)
    ensures
        contents_bytes(a) >= 0,
    decreases a.len(),
{
    if a.len() > 0 {
        lemma_contents_bytes_nonneg(a.drop_last());
        crate::codec::lemma_blen_bounds(a.last().1@);
    }
}

} // verus!
