//! The client's half of the protocol: what one response line means for the
//! request that was sent.  Writing the request out and moving bytes over the
//! stream are the caller's work.

use vstd::prelude::*;

use crate::error::KvsError;
use crate::protocol::enc_get_response;
use crate::protocol::enc_rm_response;
use crate::protocol::enc_set_response;
use crate::protocol::decode_get_response;
use crate::protocol::decode_rm_response;
use crate::protocol::decode_set_response;
use crate::protocol::GetResponse;
use crate::protocol::GetResponseModel;
use crate::protocol::Request;
use crate::protocol::RequestModel;
use crate::protocol::RmResponse;
use crate::protocol::RmResponseModel;
use crate::protocol::SetResponse;
use crate::protocol::SetResponseModel;

verus! {

/// The result a client draws from one response line, given the request it
/// sent: a `Get` answer carries the optional value, a good `Set` or `Rm`
/// answer carries nothing, a reported error becomes a text error, and an
/// unreadable line a decoding error.
pub fn interpret_response(rq: &Request, line: &str) -> (res: Result<Option<String>, KvsError>)
    ensures
        rq@ is Get ==> {
            &&& forall|v: Seq<char>|
                line@ == #[trigger] enc_get_response(
                    GetResponseModel::Okay(Option::Some(v)),
                ) ==> (res matches Ok(o) && o matches Some(vv) && vv@ == v)
            &&& (line@ == enc_get_response(GetResponseModel::Okay(Option::None)) ==> (res
                matches Ok(o) && o is None))
            &&& forall|m: Seq<char>|
                line@ == #[trigger] enc_get_response(GetResponseModel::Error(m)) ==> (res
                    matches Err(e) && e matches KvsError::StringError(mm) && mm@ == m)
            &&& (forall|r2: GetResponseModel| line@ != #[trigger] enc_get_response(r2)) ==> (res
                matches Err(e) && e matches KvsError::SerdeError(_))
        },
        rq@ is Put ==> {
            &&& (line@ == enc_set_response(SetResponseModel::Okay) ==> (res matches Ok(o) && o
                is None))
            &&& forall|m: Seq<char>|
                line@ == #[trigger] enc_set_response(SetResponseModel::Error(m)) ==> (res
                    matches Err(e) && e matches KvsError::StringError(mm) && mm@ == m)
            &&& (forall|r2: SetResponseModel| line@ != #[trigger] enc_set_response(r2)) ==> (res
                matches Err(e) && e matches KvsError::SerdeError(_))
        },
        rq@ is Rm ==> {
            &&& (line@ == enc_rm_response(RmResponseModel::Okay) ==> (res matches Ok(o) && o
                is None))
            &&& forall|m: Seq<char>|
                line@ == #[trigger] enc_rm_response(RmResponseModel::Error(m)) ==> (res
                    matches Err(e) && e matches KvsError::StringError(mm) && mm@ == m)
            &&& (forall|r2: RmResponseModel| line@ != #[trigger] enc_rm_response(r2)) ==> (res
                matches Err(e) && e matches KvsError::SerdeError(_))
        },
{
    match rq {
        Request::Get { key: _ } => {
            match decode_get_response(line) {
                Some(GetResponse::Okay(o)) => Ok(o),
                Some(GetResponse::Error(m)) => Err(KvsError::from(m)),
                None => Err(
                    KvsError::SerdeError(String::from_str("unreadable response line")),
                ),
            }
        }
        Request::Put { key: _, value: _ } => {
            match decode_set_response(line) {
                Some(SetResponse::Okay) => Ok(None),
                Some(SetResponse::Error(m)) => Err(KvsError::from(m)),
                None => Err(
                    KvsError::SerdeError(String::from_str("unreadable response line")),
                ),
            }
        }
        Request::Rm { key: _ } => {
            match decode_rm_response(line) {
                Some(RmResponse::Okay) => Ok(None),
                Some(RmResponse::Error(m)) => Err(KvsError::from(m)),
                None => Err(
                    KvsError::SerdeError(String::from_str("unreadable response line")),
                ),
            }
        }
    }
}

} // verus!
