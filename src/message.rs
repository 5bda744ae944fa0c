//! Replies with fixed text.

use vstd::prelude::*;

verus! {

/// The reply when the creation of an entry is cancelled.
pub fn generate_cancelled_message() -> (r: String)
    ensures
        r@ == "{ \"text\": \"취소되었습니다.\" }"@,
{
    "{ \"text\": \"취소되었습니다.\" }".to_owned()
}

/// The reply when an entry has been deleted.
pub fn generate_deleted_message() -> (r: String)
    ensures
        r@ == "{ \"text\": \"삭제되었습니다.\" }"@,
{
    "{ \"text\": \"삭제되었습니다.\" }".to_owned()
}

/// The reply when an address has no entry.
pub fn generate_inexist_message() -> (r: String)
    ensures
        r@ == "{ \"text\": \"존재하지 않는 IP 입니다.\" }"@,
{
    "{ \"text\": \"존재하지 않는 IP 입니다.\" }".to_owned()
}

} // verus!
