//! The answer to a request for the image of an entity.

use vstd::prelude::*;

verus! {

/// The status of every answer.
pub const STATUS_OK: u16 = 200;

/// An answer to a request.
#[derive(Debug)]
pub struct ImageResponse {
    pub status: u16,
    pub body: Vec<u8>,
}

/// The answer to a request: the raw bytes of the image, or nothing where the entity has none. A
/// missing image is no failure.
pub fn respond(image: Option<Vec<u8>>) -> (response: ImageResponse)
    ensures
        response.status == STATUS_OK,
        response.status == 200,
        image matches Some(bytes) ==> response.body@ == bytes@,
        image is None ==> response.body@ == Seq::<u8>::empty(),
{
    let body = match image {
        Some(bytes) => bytes,
        None => Vec::new(),
    };
    ImageResponse { status: STATUS_OK, body }
}

} // verus!
