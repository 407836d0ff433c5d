#![allow(non_camel_case_types)]
use vstd::prelude::*;

verus! {

/// The bit of a client id spec that asks for (and marks) the process id of
/// the client.
pub const XCB_RES_CLIENT_ID_MASK_LOCAL_CLIENT_PID: u32 = 2;

/// Which client ids of the X resource extension are asked for: those of the
/// client owning window `client`, of the kinds in `mask`.
#[derive(Clone, Copy, PartialEq, Eq, Structural, Debug)]
pub struct xcb_res_client_id_spec_t {
    pub client: u32,
    pub mask: u32,
}

/// One client id in a reply: its kind, and the number of 32-bit words of
/// its value.
#[derive(Clone, Copy, PartialEq, Eq, Structural, Debug)]
pub struct xcb_res_client_id_value_t {
    pub spec: xcb_res_client_id_spec_t,
    pub length: u32,
}

/// The header of a reply to a client id query.
#[derive(Clone, Copy, Debug)]
pub struct xcb_res_query_client_ids_reply_t {
    pub response_type: u8,
    pub pad0: u8,
    pub sequence: u16,
    pub length: u32,
    pub num_ids: u32,
    pub pad1: [u8; 20],
}

/// The process id among client ids `ids` (each with the first word of its
/// value): the value of the first id that carries a process id; 0 where
/// none does or where that value is -1.
pub open spec fn pid_among(ids: Seq<(xcb_res_client_id_value_t, u32)>) -> i32
    decreases ids.len(),
{
    if ids.len() == 0 {
        0
    } else if ids[0].0.spec.mask & XCB_RES_CLIENT_ID_MASK_LOCAL_CLIENT_PID != 0 {
        let p = ids[0].1 as i32;
        if p == -1 { 0 } else { p }
    } else {
        pid_among(ids.drop_first())
    }
}

/// The process id of a window's client from the ids the X resource
/// extension answered, each with the first word of its value.
pub fn client_pid(ids: &[(xcb_res_client_id_value_t, u32)]) -> (r: i32)
    ensures
        r == pid_among(ids@),
{
    let n = ids.len();
    let mut i: usize = 0;
    proof { assert(ids@.subrange(0, n as int) =~= ids@); }
    while i < n
        invariant
            n == ids@.len(),
            i <= n,
            pid_among(ids@.subrange(i as int, n as int)) == pid_among(ids@),
        decreases n - i,
    {
        proof {
            let rest = ids@.subrange(i as int, n as int);
            assert(rest.drop_first() =~= ids@.subrange(i as int + 1, n as int));
            assert(rest[0] == ids@[i as int]);
        }
        let (value, word) = ids[i];
        if value.spec.mask & XCB_RES_CLIENT_ID_MASK_LOCAL_CLIENT_PID != 0 {
            #[verifier::truncate]
            let p = word as i32;
            return if p == -1 { 0 } else { p };
        }
        i += 1;
    }
    proof { assert(ids@.subrange(n as int, n as int).len() == 0); }
    0
}

} // verus!
