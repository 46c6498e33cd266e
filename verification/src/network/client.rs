//! What a client asks of the server.

use vstd::prelude::*;

use crate::network::worker::{
    append_bytes, encode_frame, frame_of, frame_step, law_frame_round_trip, pow256, Progress,
};

verus! {

/// A request a client sends, as one byte.
#[derive(Debug, Clone, Copy, PartialEq, Eq, Structural)]
pub enum ClientRequest {
    AddRecipe,
    GetStatus,
    GetHash,
    Goodbye,
}

/// The byte that stands for each request.
pub open spec fn request_code(r: ClientRequest) -> u8 {
    match r {
        ClientRequest::AddRecipe => 0,
        ClientRequest::GetStatus => 1,
        ClientRequest::GetHash => 2,
        ClientRequest::Goodbye => 3,
    }
}

impl ClientRequest {
    /// The byte that stands for this request.
    pub fn to_u8(self) -> (res: u8)
        ensures
            res == request_code(self),
    {
        match self {
            ClientRequest::AddRecipe => 0,
            ClientRequest::GetStatus => 1,
            ClientRequest::GetHash => 2,
            ClientRequest::Goodbye => 3,
        }
    }

    /// The request that `code` stands for, if any.
    pub fn try_from_u8(code: u8) -> (res: Option<ClientRequest>)
        ensures
            match res {
                Some(r) => request_code(r) == code,
                None => code > 3,
            },
    {
        match code {
            0 => Some(ClientRequest::AddRecipe),
            1 => Some(ClientRequest::GetStatus),
            2 => Some(ClientRequest::GetHash),
            3 => Some(ClientRequest::Goodbye),
            _ => None,
        }
    }
}

/// Each request is sent as its position in the list of requests: adding a
/// recipe 0, asking for the status 1, asking for a hash 2, saying goodbye 3.
pub proof fn law_request_code_table()
    ensures
        request_code(ClientRequest::AddRecipe) == 0,
        request_code(ClientRequest::GetStatus) == 1,
        request_code(ClientRequest::GetHash) == 2,
        request_code(ClientRequest::Goodbye) == 3,
{
}

/// Reading back the byte of a request gives the request, and a byte that
/// stands for a request is the byte of the request read from it.
pub proof fn law_request_code_round_trip(r: ClientRequest, code: u8)
    ensures
        request_code(r) <= 3,
        code <= 3 ==> exists|s: ClientRequest| #[trigger] request_code(s) == code,
        forall|s: ClientRequest| request_code(s) == request_code(r) ==> s == r,
{
    if code == 0 {
        assert(request_code(ClientRequest::AddRecipe) == code);
    } else if code == 1 {
        assert(request_code(ClientRequest::GetStatus) == code);
    } else if code == 2 {
        assert(request_code(ClientRequest::GetHash) == code);
    } else if code == 3 {
        assert(request_code(ClientRequest::Goodbye) == code);
    }
}

/// The bytes with which a client hands the server a recipe: the request's
/// byte, then the recipe's encoding in a frame with an 8-byte length.
pub open spec fn add_recipe_message_of(recipe: Seq<u8>) -> Seq<u8> {
    seq![request_code(ClientRequest::AddRecipe)] + frame_of(8, recipe)
}

/// Writes the request that hands the server the recipe encoded as `recipe`.
pub fn add_recipe_message(recipe: &[u8]) -> (res: Vec<u8>)
    ensures
        res@ == add_recipe_message_of(recipe@),
{
    let n = recipe.len();
    let frame = match encode_frame(8, recipe) {
        Some(f) => f,
        None => {
            proof {
                reveal_with_fuel(pow256, 9);
                assert(n <= usize::MAX);
            }
            assert(false);
            Vec::new()
        },
    };
    let mut out: Vec<u8> = Vec::new();
    out.push(ClientRequest::AddRecipe.to_u8());
    append_bytes(&mut out, frame.as_slice());
    assert(out@ =~= add_recipe_message_of(recipe@));
    out
}

/// A recipe a client hands over is what the server reads: the first byte
/// stands for the request, and the frame after it holds the recipe's
/// encoding, whatever follows the message.
pub proof fn law_add_recipe_read_back(recipe: Seq<u8>, rest: Seq<u8>)
    requires
        9 + recipe.len() <= usize::MAX,
    ensures
        (add_recipe_message_of(recipe) + rest)[0] == request_code(ClientRequest::AddRecipe),
        frame_step(8, (add_recipe_message_of(recipe) + rest).skip(1)) == Progress::Done(
            recipe,
            (8 + recipe.len()) as usize,
        ),
{
    reveal_with_fuel(pow256, 9);
    law_frame_round_trip(8, recipe, rest);
    assert((add_recipe_message_of(recipe) + rest).skip(1) =~= frame_of(8, recipe) + rest);
}

} // verus!
