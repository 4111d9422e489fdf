//! The wire format: one request or one response per line.  The server
//! decodes a request, invokes the engine, and encodes one response; the
//! client does the reverse.  Every decoder accepts exactly the canonical
//! text of some message, and then returns that message.

use vstd::prelude::*;

use crate::codec::esc;
use crate::codec::escape;
use crate::codec::lemma_concat_parts;
use crate::codec::match_at;
use crate::codec::parse_string_to_end;
use crate::engine::kvs::enc_op;
use crate::engine::kvs::Op;
use crate::engine::kvs::OpModel;

verus! {

/// A command sent by the client.
#[derive(Debug, PartialEq)]
pub enum Request {
    Get { key: String },
    Put { key: String, value: String },
    Rm { key: String },
}

/// The mathematical form of a request.
pub enum RequestModel {
    Get { key: Seq<char> },
    Put { key: Seq<char>, value: Seq<char> },
    Rm { key: Seq<char> },
}

impl View for Request {
    type V = RequestModel;

    open spec fn view(&self) -> RequestModel {
        match self {
            Request::Get { key } => RequestModel::Get { key: key@ },
            Request::Put { key, value } => RequestModel::Put { key: key@, value: value@ },
            Request::Rm { key } => RequestModel::Rm { key: key@ },
        }
    }
}

/// The server's answer to a `Get`.
#[derive(Debug, PartialEq)]
pub enum GetResponse {
    Okay(Option<String>),
    Error(String),
}

pub enum GetResponseModel {
    Okay(Option<Seq<char>>),
    Error(Seq<char>),
}

impl View for GetResponse {
    type V = GetResponseModel;

    open spec fn view(&self) -> GetResponseModel {
        match self {
            GetResponse::Okay(o) => GetResponseModel::Okay(
                match o {
                    Option::Some(v) => Option::Some(v@),
                    Option::None => Option::None,
                },
            ),
            GetResponse::Error(m) => GetResponseModel::Error(m@),
        }
    }
}

/// The server's answer to a `Set`.
#[derive(Debug, PartialEq)]
pub enum SetResponse {
    Okay,
    Error(String),
}

pub enum SetResponseModel {
    Okay,
    Error(Seq<char>),
}

impl View for SetResponse {
    type V = SetResponseModel;

    open spec fn view(&self) -> SetResponseModel {
        match self {
            SetResponse::Okay => SetResponseModel::Okay,
            SetResponse::Error(m) => SetResponseModel::Error(m@),
        }
    }
}

/// The server's answer to an `Rm`.
#[derive(Debug, PartialEq)]
pub enum RmResponse {
    Okay,
    Error(String),
}

pub enum RmResponseModel {
    Okay,
    Error(Seq<char>),
}

impl View for RmResponse {
    type V = RmResponseModel;

    open spec fn view(&self) -> RmResponseModel {
        match self {
            RmResponse::Okay => RmResponseModel::Okay,
            RmResponse::Error(m) => RmResponseModel::Error(m@),
        }
    }
}

/// The canonical text of a request, without its newline.
pub open spec fn enc_request(rq: RequestModel) -> Seq<char> {
    match rq {
        RequestModel::Get { key } => "{\"Get\":{\"key\":\""@ + esc(key) + "\"}}"@,
        RequestModel::Put { key, value } => enc_op(OpModel::Put { key, value }),
        RequestModel::Rm { key } => enc_op(OpModel::Rm { key }),
    }
}

/// The canonical text of a `Get` response, without its newline.
pub open spec fn enc_get_response(r: GetResponseModel) -> Seq<char> {
    match r {
        GetResponseModel::Okay(Option::None) => "{\"Ok\":null}"@,
        GetResponseModel::Okay(Option::Some(v)) => "{\"Ok\":\""@ + esc(v) + "\"}"@,
        GetResponseModel::Error(m) => "{\"Err\":\""@ + esc(m) + "\"}"@,
    }
}

/// The canonical text of a `Set` response, without its newline.
pub open spec fn enc_set_response(r: SetResponseModel) -> Seq<char> {
    match r {
        SetResponseModel::Okay => "\"Ok\""@,
        SetResponseModel::Error(m) => "{\"Err\":\""@ + esc(m) + "\"}"@,
    }
}

/// The canonical text of an `Rm` response, without its newline.
pub open spec fn enc_rm_response(r: RmResponseModel) -> Seq<char> {
    match r {
        RmResponseModel::Okay => "\"Ok\""@,
        RmResponseModel::Error(m) => "{\"Err\":\""@ + esc(m) + "\"}"@,
    }
}

/// Write a request as its canonical text.
pub fn encode_request(rq: &Request) -> (r: String)
    ensures
        r@ == enc_request(rq@),
{
    match rq {
        Request::Get { key } => {
            let mut r = String::from_str("{\"Get\":{\"key\":\"");
            let ek = escape(key.as_str());
            r.append(ek.as_str());
            r.append("\"}}");
            r
        }
        Request::Put { key, value } => {
            let op = Op::Put { key: key.clone(), value: value.clone() };
            crate::engine::kvs::encode_op(&op)
        }
        Request::Rm { key } => {
            let op = Op::Rm { key: key.clone() };
            crate::engine::kvs::encode_op(&op)
        }
    }
}

/// Write a `Get` response as its canonical text.
pub fn encode_get_response(r: &GetResponse) -> (t: String)
    ensures
        t@ == enc_get_response(r@),
{
    match r {
        GetResponse::Okay(o) => {
            match o {
                Option::None => String::from_str("{\"Ok\":null}"),
                Option::Some(v) => {
                    let mut t = String::from_str("{\"Ok\":\"");
                    let ev = escape(v.as_str());
                    t.append(ev.as_str());
                    t.append("\"}");
                    t
                }
            }
        }
        GetResponse::Error(m) => {
            let mut t = String::from_str("{\"Err\":\"");
            let em = escape(m.as_str());
            t.append(em.as_str());
            t.append("\"}");
            t
        }
    }
}

/// Write a `Set` response as its canonical text.
pub fn encode_set_response(r: &SetResponse) -> (t: String)
    ensures
        t@ == enc_set_response(r@),
{
    match r {
        SetResponse::Okay => String::from_str("\"Ok\""),
        SetResponse::Error(m) => {
            let mut t = String::from_str("{\"Err\":\"");
            let em = escape(m.as_str());
            t.append(em.as_str());
            t.append("\"}");
            t
        }
    }
}

/// Write an `Rm` response as its canonical text.
pub fn encode_rm_response(r: &RmResponse) -> (t: String)
    ensures
        t@ == enc_rm_response(r@),
{
    match r {
        RmResponse::Okay => String::from_str("\"Ok\""),
        RmResponse::Error(m) => {
            let mut t = String::from_str("{\"Err\":\"");
            let em = escape(m.as_str());
            t.append(em.as_str());
            t.append("\"}");
            t
        }
    }
}

/// How the text of a `Get` request splits into its parts.
proof fn lemma_get_req_parts(k: Seq<char>, w: Seq<char>)
    requires
        w == enc_request(RequestModel::Get { key: k }),
    ensures
        w.len() == 18 + esc(k).len(),
        w.take(15) == "{\"Get\":{\"key\":\""@,
        w.skip(15) == esc(k) + seq!['"'] + "}}"@,
{
    reveal_strlit("{\"Get\":{\"key\":\"");
    reveal_strlit("\"}}");
    reveal_strlit("}}");
    assert("{\"Get\":{\"key\":\""@.len() == 15);
    assert("\"}}"@ =~= seq!['"'] + "}}"@);
    let a = "{\"Get\":{\"key\":\""@;
    assert(w =~= a + (esc(k) + seq!['"'] + "}}"@));
    lemma_concat_parts(a, esc(k) + seq!['"'] + "}}"@, w);
}

/// Read a request back from its one-line text.  Succeeds exactly on the
/// canonical text of some request, and then returns that request.
pub fn decode_request(s: &str) -> (r: Option<Request>)
    ensures
        match r {
            Some(rq) => s@ == enc_request(rq@) && (forall|r2: RequestModel|
                s@ == #[trigger] enc_request(r2) ==> r2 == rq@),
            None => forall|r2: RequestModel| s@ != #[trigger] enc_request(r2),
        },
{
    proof {
        reveal_strlit("{\"Get\":{\"key\":\"");
        reveal_strlit("{\"Set\":{\"key\":\"");
        reveal_strlit("{\"Rm\":{\"key\":\"");
        reveal_strlit("}}");
    }
    if match_at(s, 0, "{\"Get\":{\"key\":\"") {
        match parse_string_to_end(s, 15, "}}") {
            Some(key) => {
                proof {
                    let rm = RequestModel::Get { key: key@ };
                    assert(s@ =~= s@.subrange(0, 15) + s@.skip(15));
                    assert(enc_request(rm) =~= "{\"Get\":{\"key\":\""@ + (esc(key@) + seq!['"']
                        + "}}"@)) by {
                        reveal_strlit("\"}}");
                        assert("\"}}"@ =~= seq!['"'] + "}}"@);
                    }
                    assert(s@ == enc_request(rm));
                    assert forall|r2: RequestModel| s@ == #[trigger] enc_request(r2) implies r2
                        == rm by {
                        match r2 {
                            RequestModel::Get { key: k2 } => {
                                lemma_get_req_parts(k2, s@);
                                assert(s@.skip(15) == esc(k2) + seq!['"'] + "}}"@);
                            }
                            RequestModel::Put { key: k2, value: v2 } => {
                                crate::engine::kvs::lemma_set_parts(k2, v2, s@);
                                assert(s@[2] == s@.take(15)[2]);
                                assert(s@[2] == s@.subrange(0, 15)[2]);
                            }
                            RequestModel::Rm { key: k2 } => {
                                crate::engine::kvs::lemma_rm_parts(k2, s@);
                                assert(s@[2] == s@.take(14)[2]);
                                assert(s@[2] == s@.subrange(0, 15)[2]);
                            }
                        }
                    }
                }
                Some(Request::Get { key })
            }
            None => {
                proof {
                    assert forall|r2: RequestModel| s@ != #[trigger] enc_request(r2) by {
                        if s@ == enc_request(r2) {
                            match r2 {
                                RequestModel::Get { key: k2 } => {
                                    lemma_get_req_parts(k2, s@);
                                }
                                RequestModel::Put { key: k2, value: v2 } => {
                                    crate::engine::kvs::lemma_set_parts(k2, v2, s@);
                                    assert(s@[2] == s@.take(15)[2]);
                                    assert(s@[2] == s@.subrange(0, 15)[2]);
                                }
                                RequestModel::Rm { key: k2 } => {
                                    crate::engine::kvs::lemma_rm_parts(k2, s@);
                                    assert(s@[2] == s@.take(14)[2]);
                                    assert(s@[2] == s@.subrange(0, 15)[2]);
                                }
                            }
                        }
                    }
                }
                None
            }
        }
    } else {
        let d = crate::engine::kvs::decode_op(s);
        match d {
            Some(op) => {
                proof {
                    assert forall|r2: RequestModel| s@ == #[trigger] enc_request(r2) implies r2
                        == (match op@ {
                        OpModel::Put { key, value } => RequestModel::Put { key, value },
                        OpModel::Rm { key } => RequestModel::Rm { key },
                    }) by {
                        match r2 {
                            RequestModel::Get { key: k2 } => {
                                lemma_get_req_parts(k2, s@);
                                match op@ {
                                    OpModel::Put { key, value } => {
                                        crate::engine::kvs::lemma_set_parts(key, value, s@);
                                        assert(s@[2] == s@.take(15)[2]);
                                    }
                                    OpModel::Rm { key } => {
                                        crate::engine::kvs::lemma_rm_parts(key, s@);
                                        assert(s@[2] == s@.take(14)[2]);
                                    }
                                }
                                assert(s@[2] == s@.take(15)[2]);
                                assert(false);
                            }
                            RequestModel::Put { key: k2, value: v2 } => {
                                assert(s@ == enc_op(OpModel::Put { key: k2, value: v2 }));
                            }
                            RequestModel::Rm { key: k2 } => {
                                assert(s@ == enc_op(OpModel::Rm { key: k2 }));
                            }
                        }
                    }
                }
                match op {
                    Op::Put { key, value } => Some(Request::Put { key, value }),
                    Op::Rm { key } => Some(Request::Rm { key }),
                }
            }
            None => {
                proof {
                    assert forall|r2: RequestModel| s@ != #[trigger] enc_request(r2) by {
                        if s@ == enc_request(r2) {
                            match r2 {
                                RequestModel::Get { key: k2 } => {
                                    lemma_get_req_parts(k2, s@);
                                    assert(s@.subrange(0, 15) =~= s@.take(15));
                                }
                                RequestModel::Put { key: k2, value: v2 } => {
                                    assert(s@ == enc_op(OpModel::Put { key: k2, value: v2 }));
                                }
                                RequestModel::Rm { key: k2 } => {
                                    assert(s@ == enc_op(OpModel::Rm { key: k2 }));
                                }
                            }
                        }
                    }
                }
                None
            }
        }
    }
}

/// How the text of a value-carrying `Get` response splits into its parts.
proof fn lemma_ok_some_parts(v: Seq<char>, w: Seq<char>)
    requires
        w == enc_get_response(GetResponseModel::Okay(Option::Some(v))),
    ensures
        w.len() == 9 + esc(v).len(),
        w.take(7) == "{\"Ok\":\""@,
        w.skip(7) == esc(v) + seq!['"'] + "}"@,
{
    reveal_strlit("{\"Ok\":\"");
    reveal_strlit("\"}");
    reveal_strlit("}");
    assert("{\"Ok\":\""@.len() == 7);
    assert("\"}"@ =~= seq!['"'] + "}"@);
    let a = "{\"Ok\":\""@;
    assert(w =~= a + (esc(v) + seq!['"'] + "}"@));
    lemma_concat_parts(a, esc(v) + seq!['"'] + "}"@, w);
}

/// How the text of an `Err` response splits into its parts.
proof fn lemma_err_parts(m: Seq<char>, w: Seq<char>)
    requires
        w == "{\"Err\":\""@ + esc(m) + "\"}"@,
    ensures
        w.len() == 10 + esc(m).len(),
        w.take(8) == "{\"Err\":\""@,
        w.skip(8) == esc(m) + seq!['"'] + "}"@,
{
    reveal_strlit("{\"Err\":\"");
    reveal_strlit("\"}");
    reveal_strlit("}");
    assert("{\"Err\":\""@.len() == 8);
    assert("\"}"@ =~= seq!['"'] + "}"@);
    let a = "{\"Err\":\""@;
    assert(w =~= a + (esc(m) + seq!['"'] + "}"@));
    lemma_concat_parts(a, esc(m) + seq!['"'] + "}"@, w);
}

/// Read a `Get` response back from its text.  Succeeds exactly on the
/// canonical text of some response, and then returns that response.
pub fn decode_get_response(s: &str) -> (r: Option<GetResponse>)
    ensures
        match r {
            Some(gr) => s@ == enc_get_response(gr@) && (forall|r2: GetResponseModel|
                s@ == #[trigger] enc_get_response(r2) ==> r2 == gr@),
            None => forall|r2: GetResponseModel| s@ != #[trigger] enc_get_response(r2),
        },
{
    let n = s.unicode_len();
    proof {
        reveal_strlit("{\"Ok\":null}");
        reveal_strlit("{\"Ok\":\"");
        reveal_strlit("{\"Err\":\"");
        reveal_strlit("}");
    }
    let is_null = match_at(s, 0, "{\"Ok\":null}");
    if is_null && n == 11 {
        proof {
            assert(s@ =~= "{\"Ok\":null}"@);
            let gm = GetResponseModel::Okay(Option::<Seq<char>>::None);
            assert(s@ == enc_get_response(gm));
            assert forall|r2: GetResponseModel| s@ == #[trigger] enc_get_response(r2) implies r2
                == gm by {
                match r2 {
                    GetResponseModel::Okay(Option::None) => {}
                    GetResponseModel::Okay(Option::Some(v2)) => {
                        lemma_ok_some_parts(v2, s@);
                        assert(s@[6] == s@.take(7)[6]);
                        assert(false);
                    }
                    GetResponseModel::Error(m2) => {
                        lemma_err_parts(m2, s@);
                        assert(s@[2] == s@.take(8)[2]);
                        assert(false);
                    }
                }
            }
        }
        return Some(GetResponse::Okay(None));
    }
    if match_at(s, 0, "{\"Ok\":\"") {
        match parse_string_to_end(s, 7, "}") {
            Some(v) => {
                proof {
                    let gm = GetResponseModel::Okay(Option::Some(v@));
                    assert(s@ =~= s@.subrange(0, 7) + s@.skip(7));
                    assert(enc_get_response(gm) =~= "{\"Ok\":\""@ + (esc(v@) + seq!['"']
                        + "}"@)) by {
                        reveal_strlit("\"}");
                        assert("\"}"@ =~= seq!['"'] + "}"@);
                    }
                    assert(s@ == enc_get_response(gm));
                    assert forall|r2: GetResponseModel| s@ == #[trigger] enc_get_response(r2)
                        implies r2 == gm by {
                        match r2 {
                            GetResponseModel::Okay(Option::None) => {
                                assert(s@ == "{\"Ok\":null}"@);
                                assert(s@.subrange(0, 11) =~= s@);
                                assert(false);
                            }
                            GetResponseModel::Okay(Option::Some(v2)) => {
                                lemma_ok_some_parts(v2, s@);
                                assert(s@.skip(7) == esc(v2) + seq!['"'] + "}"@);
                            }
                            GetResponseModel::Error(m2) => {
                                lemma_err_parts(m2, s@);
                                assert(s@[2] == s@.take(8)[2]);
                                assert(s@[2] == s@.subrange(0, 7)[2]);
                                assert(false);
                            }
                        }
                    }
                }
                Some(GetResponse::Okay(Some(v)))
            }
            None => {
                proof {
                    assert forall|r2: GetResponseModel| s@ != #[trigger] enc_get_response(r2) by {
                        if s@ == enc_get_response(r2) {
                            match r2 {
                                GetResponseModel::Okay(Option::None) => {
                                    assert(s@ == "{\"Ok\":null}"@);
                                    assert(s@.subrange(0, 11) =~= s@);
                                }
                                GetResponseModel::Okay(Option::Some(v2)) => {
                                    lemma_ok_some_parts(v2, s@);
                                }
                                GetResponseModel::Error(m2) => {
                                    lemma_err_parts(m2, s@);
                                    assert(s@[2] == s@.take(8)[2]);
                                    assert(s@[2] == s@.subrange(0, 7)[2]);
                                }
                            }
                        }
                    }
                }
                None
            }
        }
    } else if match_at(s, 0, "{\"Err\":\"") {
        match parse_string_to_end(s, 8, "}") {
            Some(m) => {
                proof {
                    let gm = GetResponseModel::Error(m@);
                    assert(s@ =~= s@.subrange(0, 8) + s@.skip(8));
                    assert(enc_get_response(gm) =~= "{\"Err\":\""@ + (esc(m@) + seq!['"']
                        + "}"@)) by {
                        reveal_strlit("\"}");
                        assert("\"}"@ =~= seq!['"'] + "}"@);
                    }
                    assert(s@ == enc_get_response(gm));
                    assert forall|r2: GetResponseModel| s@ == #[trigger] enc_get_response(r2)
                        implies r2 == gm by {
                        match r2 {
                            GetResponseModel::Okay(Option::None) => {
                                assert(s@ == "{\"Ok\":null}"@);
                                assert(s@[2] == s@.subrange(0, 8)[2]);
                                assert(false);
                            }
                            GetResponseModel::Okay(Option::Some(v2)) => {
                                lemma_ok_some_parts(v2, s@);
                                assert(s@[2] == s@.take(7)[2]);
                                assert(s@[2] == s@.subrange(0, 8)[2]);
                                assert(false);
                            }
                            GetResponseModel::Error(m2) => {
                                lemma_err_parts(m2, s@);
                                assert(s@.skip(8) == esc(m2) + seq!['"'] + "}"@);
                            }
                        }
                    }
                }
                Some(GetResponse::Error(m))
            }
            None => {
                proof {
                    assert forall|r2: GetResponseModel| s@ != #[trigger] enc_get_response(r2) by {
                        if s@ == enc_get_response(r2) {
                            match r2 {
                                GetResponseModel::Okay(Option::None) => {
                                    assert(s@ == "{\"Ok\":null}"@);
                                    assert(s@[2] == s@.subrange(0, 8)[2]);
                                }
                                GetResponseModel::Okay(Option::Some(v2)) => {
                                    lemma_ok_some_parts(v2, s@);
                                    assert(s@[2] == s@.take(7)[2]);
                                    assert(s@[2] == s@.subrange(0, 8)[2]);
                                }
                                GetResponseModel::Error(m2) => {
                                    lemma_err_parts(m2, s@);
                                }
                            }
                        }
                    }
                }
                None
            }
        }
    } else {
        proof {
            assert forall|r2: GetResponseModel| s@ != #[trigger] enc_get_response(r2) by {
                if s@ == enc_get_response(r2) {
                    match r2 {
                        GetResponseModel::Okay(Option::None) => {
                            assert(s@.len() == 11);
                            assert(s@.subrange(0, 11) =~= s@);
                        }
                        GetResponseModel::Okay(Option::Some(v2)) => {
                            lemma_ok_some_parts(v2, s@);
                            assert(s@.subrange(0, 7) =~= s@.take(7));
                        }
                        GetResponseModel::Error(m2) => {
                            lemma_err_parts(m2, s@);
                            assert(s@.subrange(0, 8) =~= s@.take(8));
                        }
                    }
                }
            }
        }
        None
    }
}

/// Read a `Set` response back from its text: the canonical `"Ok"` or an
/// `Err` carrying a message, and nothing else.
pub fn decode_set_response(s: &str) -> (r: Option<SetResponse>)
    ensures
        match r {
            Some(sr) => s@ == enc_set_response(sr@) && (forall|r2: SetResponseModel|
                s@ == #[trigger] enc_set_response(r2) ==> r2 == sr@),
            None => forall|r2: SetResponseModel| s@ != #[trigger] enc_set_response(r2),
        },
{
    let n = s.unicode_len();
    proof {
        reveal_strlit("\"Ok\"");
        reveal_strlit("{\"Err\":\"");
        reveal_strlit("}");
    }
    let is_ok = match_at(s, 0, "\"Ok\"");
    if is_ok && n == 4 {
        proof {
            assert(s@ =~= "\"Ok\""@);
            assert forall|r2: SetResponseModel| s@ == #[trigger] enc_set_response(r2) implies r2
                == SetResponseModel::Okay by {
                if r2 is Error {
                    lemma_err_parts(r2->Error_0, s@);
                    assert(s@[0] == s@.take(8)[0]);
                }
            }
        }
        return Some(SetResponse::Okay);
    }
    if match_at(s, 0, "{\"Err\":\"") {
        match parse_string_to_end(s, 8, "}") {
            Some(m) => {
                proof {
                    let sm = SetResponseModel::Error(m@);
                    assert(s@ =~= s@.subrange(0, 8) + s@.skip(8));
                    assert(enc_set_response(sm) =~= "{\"Err\":\""@ + (esc(m@) + seq!['"']
                        + "}"@)) by {
                        reveal_strlit("\"}");
                        assert("\"}"@ =~= seq!['"'] + "}"@);
                    }
                    assert(s@ == enc_set_response(sm));
                    assert forall|r2: SetResponseModel| s@ == #[trigger] enc_set_response(r2)
                        implies r2 == sm by {
                        if r2 is Error {
                            lemma_err_parts(r2->Error_0, s@);
                            assert(s@.skip(8) == esc(r2->Error_0) + seq!['"'] + "}"@);
                        } else {
                            assert(s@.len() == 4);
                        }
                    }
                }
                Some(SetResponse::Error(m))
            }
            None => {
                proof {
                    assert forall|r2: SetResponseModel| s@ != #[trigger] enc_set_response(r2) by {
                        if s@ == enc_set_response(r2) {
                            if r2 is Error {
                                lemma_err_parts(r2->Error_0, s@);
                            } else {
                                assert(s@ =~= "\"Ok\""@);
                                assert(s@.subrange(0, 4) =~= s@);
                            }
                        }
                    }
                }
                None
            }
        }
    } else {
        proof {
            assert forall|r2: SetResponseModel| s@ != #[trigger] enc_set_response(r2) by {
                if s@ == enc_set_response(r2) {
                    if r2 is Error {
                        lemma_err_parts(r2->Error_0, s@);
                        assert(s@.subrange(0, 8) =~= s@.take(8));
                    } else {
                        assert(s@ =~= "\"Ok\""@);
                        assert(s@.subrange(0, 4) =~= s@);
                    }
                }
            }
        }
        None
    }
}

/// Read an `Rm` response back from its text, as for `Set`.
pub fn decode_rm_response(s: &str) -> (r: Option<RmResponse>)
    ensures
        match r {
            Some(rr) => s@ == enc_rm_response(rr@) && (forall|r2: RmResponseModel|
                s@ == #[trigger] enc_rm_response(r2) ==> r2 == rr@),
            None => forall|r2: RmResponseModel| s@ != #[trigger] enc_rm_response(r2),
        },
{
    let d = decode_set_response(s);
    proof {
        assert(forall|m: Seq<char>|
            #[trigger] enc_rm_response(RmResponseModel::Error(m)) == enc_set_response(
                SetResponseModel::Error(m),
            ));
    }
    match d {
        Some(SetResponse::Okay) => {
            proof {
                assert forall|r2: RmResponseModel| s@ == #[trigger] enc_rm_response(r2) implies r2
                    == RmResponseModel::Okay by {
                    if r2 is Error {
                        assert(s@ == enc_set_response(SetResponseModel::Error(r2->Error_0)));
                    }
                }
            }
            Some(RmResponse::Okay)
        }
        Some(SetResponse::Error(m)) => {
            proof {
                assert(s@ == enc_rm_response(RmResponseModel::Error(m@)));
                assert forall|r2: RmResponseModel| s@ == #[trigger] enc_rm_response(r2) implies r2
                    == RmResponseModel::Error(m@) by {
                    if r2 is Error {
                        assert(s@ == enc_set_response(SetResponseModel::Error(r2->Error_0)));
                    } else {
                        assert(s@ == enc_set_response(SetResponseModel::Okay));
                    }
                }
            }
            Some(RmResponse::Error(m))
        }
        None => {
            proof {
                assert forall|r2: RmResponseModel| s@ != #[trigger] enc_rm_response(r2) by {
                    if s@ == enc_rm_response(r2) {
                        if r2 is Error {
                            assert(s@ == enc_set_response(SetResponseModel::Error(r2->Error_0)));
                        } else {
                            assert(s@ == enc_set_response(SetResponseModel::Okay));
                        }
                    }
                }
            }
            None
        }
    }
}

} // verus!
