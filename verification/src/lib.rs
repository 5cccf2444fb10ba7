//! A single-node, in-memory key-value cache speaking the memcached UDP
//! dialect for `get` and `set`: an open-addressing hash index, a packet
//! codec that reuses the request buffer for the response, and the store
//! that ties the two together. Each worker of a server owns one store;
//! nothing is shared between them.

pub mod arch;
pub mod indexmap;
pub mod memb;

use vstd::prelude::*;

use crate::indexmap::{
    default_parameters, lemma_empty_table_admits_insert, lemma_load_factor, params_valid, Index,
    IndexValue,
};
use crate::memb::serialize::{buf_encode, decode_spec, encoded_bytes, Decoder};
use crate::memb::{ClientValue, ClientValueModel, ServerValue, ServerValueModel};

verus! {

/// The longest key the store accepts.
pub const MAX_KEY_LEN: usize = 250;

/// The longest value payload the store accepts.
pub const MAX_VALUE_LEN: usize = 1024;

/// The request id an op echoes.
pub open spec fn cmd_req_id(cmd: ClientValueModel) -> u16 {
    match cmd {
        ClientValueModel::Get { req_id, .. } => req_id,
        ClientValueModel::Put { req_id, .. } => req_id,
    }
}

/// The response an op receives when the store can apply it: a `get`
/// within the key limit answers `Value` on a hit and nothing on a miss;
/// a `set` within the limits answers `Stored`, an oversize one
/// `NotStored`.
pub open spec fn response_model(
    m: Map<Seq<u8>, (u32, Seq<u8>)>,
    cmd: ClientValueModel,
) -> ServerValueModel {
    match cmd {
        ClientValueModel::Get { req_id, key } => {
            if key.len() > MAX_KEY_LEN as int {
                ServerValueModel::NoReply
            } else if m.contains_key(key) {
                ServerValueModel::Value { req_id, key, flags: m[key].0, data: m[key].1 }
            } else {
                ServerValueModel::NoReply
            }
        },
        ClientValueModel::Put { req_id, key, flags, data } => {
            if key.len() > MAX_KEY_LEN as int || data.len() > MAX_VALUE_LEN as int {
                ServerValueModel::NotStored { req_id }
            } else {
                ServerValueModel::Stored { req_id }
            }
        },
    }
}

/// The store's contents after an op: only a `set` within the limits
/// changes them.
pub open spec fn store_after(
    m: Map<Seq<u8>, (u32, Seq<u8>)>,
    cmd: ClientValueModel,
) -> Map<Seq<u8>, (u32, Seq<u8>)> {
    match cmd {
        ClientValueModel::Get { .. } => m,
        ClientValueModel::Put { key, flags, data, .. } => {
            if key.len() > MAX_KEY_LEN as int || data.len() > MAX_VALUE_LEN as int {
                m
            } else {
                m.insert(key, (flags, data))
            }
        },
    }
}

/// The per-worker store: one [`Index`] from keys to `(flags, payload)`
/// pairs.
pub struct SashStore {
    /// Maps key -> (flags, value)
    map: Index,
}

impl View for SashStore {
    type V = Map<Seq<u8>, (u32, Seq<u8>)>;

    closed spec fn view(&self) -> Map<Seq<u8>, (u32, Seq<u8>)> {
        self.map@
    }
}

impl SashStore {
    /// The index inside.
    pub closed spec fn spec_index(&self) -> Index {
        self.map
    }

    /// The store is well-formed when its index is.
    pub closed spec fn wf(&self) -> bool {
        self.map.wf()
    }

    /// A store over a fresh index of at least `capacity` slots (one at
    /// the very least), all empty, with the default parameters: maximum
    /// load factor 7/10, growth factor 2, quadratic probing, FNV-1
    /// hashing.
    pub fn with_capacity(capacity: usize) -> (r: SashStore)
        ensures
            r.wf(),
            r@ == Map::<Seq<u8>, (u32, Seq<u8>)>::empty(),
            r.spec_index().spec_len() == 0,
            r.spec_index().spec_cap() >= capacity,
            r.spec_index().spec_cap() >= 1,
            r.spec_index().spec_params() == default_parameters(),
    {
        SashStore { map: Index::with_capacity(capacity) }
    }

    /// How many entries the store holds.
    pub fn len(&self) -> (r: usize)
        ensures
            r as int == self.spec_index().spec_len(),
    {
        self.map.len()
    }

    /// How many slots the store's index has.
    pub fn capacity(&self) -> (r: usize)
        ensures
            r as int == self.spec_index().spec_cap(),
    {
        self.map.capacity()
    }

    /// Whether the store can apply `cmd` as the protocol asks: everything
    /// but a well-sized `set` of an absent key whose insert finds no room
    /// (a grown capacity past `usize`, or an exhausted probe walk).
    pub open spec fn spec_can_apply(self, cmd: ClientValueModel) -> bool {
        match cmd {
            ClientValueModel::Get { .. } => true,
            ClientValueModel::Put { key, flags, data, .. } => {
                ||| key.len() > MAX_KEY_LEN as int
                ||| data.len() > MAX_VALUE_LEN as int
                ||| self@.contains_key(key)
                ||| (!(self.spec_index().spec_needs_grow()
                    && self.spec_index().spec_grown_capacity() > usize::MAX as int)
                    && !self.spec_index().spec_probe_fails(key, flags, data))
            },
        }
    }

    /// The entry count after an op the store can apply: a `set` of an
    /// absent key within the limits adds one entry; everything else —
    /// a `get`, an oversize `set`, a re-insert — leaves the count
    /// alone.
    pub open spec fn spec_len_after(self, cmd: ClientValueModel) -> int {
        match cmd {
            ClientValueModel::Get { .. } => self.spec_index().spec_len(),
            ClientValueModel::Put { key, data, .. } => {
                if key.len() > MAX_KEY_LEN as int || data.len() > MAX_VALUE_LEN as int
                    || self@.contains_key(key) {
                    self.spec_index().spec_len()
                } else {
                    self.spec_index().spec_len() + 1
                }
            },
        }
    }

    /// The capacity after an op the store can apply: only a `set` of an
    /// absent key that trips the load factor rehashes, to exactly the
    /// grown capacity; nothing ever shrinks the table.
    pub open spec fn spec_cap_after(self, cmd: ClientValueModel) -> int {
        match cmd {
            ClientValueModel::Get { .. } => self.spec_index().spec_cap(),
            ClientValueModel::Put { key, data, .. } => {
                if key.len() > MAX_KEY_LEN as int || data.len() > MAX_VALUE_LEN as int
                    || self@.contains_key(key) || !self.spec_index().spec_needs_grow() {
                    self.spec_index().spec_cap()
                } else {
                    self.spec_index().spec_grown_capacity()
                }
            },
        }
    }

    /// Applies one decoded op. A `get` never mutates the store; a `set`
    /// within the size limits inserts; an insert that finds no room
    /// answers `NotStored` and leaves the store unchanged. The entry
    /// count and the capacity move exactly as `spec_len_after` and
    /// `spec_cap_after` say; parameters never change and the capacity
    /// never decreases.
    pub fn execute_cmd(&mut self, cmd: ClientValue) -> (r: ServerValue)
        requires
            old(self).wf(),
        ensures
            final(self).wf(),
            final(self).spec_index().spec_params() == old(self).spec_index().spec_params(),
            final(self).spec_index().spec_cap() >= old(self).spec_index().spec_cap(),
            old(self).spec_can_apply(cmd@) ==> ({
                &&& final(self)@ == store_after(old(self)@, cmd@)
                &&& r@ == response_model(old(self)@, cmd@)
                &&& final(self).spec_index().spec_len() == old(self).spec_len_after(cmd@)
                &&& final(self).spec_index().spec_cap() == old(self).spec_cap_after(cmd@)
            }),
            !old(self).spec_can_apply(cmd@) ==> ({
                &&& final(self)@ == old(self)@
                &&& r@ == (ServerValueModel::NotStored { req_id: cmd_req_id(cmd@) })
                &&& final(self).spec_index().spec_len() == old(self).spec_index().spec_len()
                &&& final(self).spec_index().spec_cap() == old(self).spec_index().spec_cap()
            }),
    {
        match cmd {
            ClientValue::Get(req_id, key) => {
                if key.len() > MAX_KEY_LEN {
                    return ServerValue::NoReply;
                }
                match self.map.get(key.as_slice()) {
                    Some(value) => {
                        let flags = value.flags;
                        let data = value.dup_data();
                        ServerValue::Value(req_id, key, flags, data)
                    },
                    None => ServerValue::NoReply,
                }
            },
            ClientValue::Put(req_id, key, flags, data) => {
                if key.len() > MAX_KEY_LEN || data.len() > MAX_VALUE_LEN {
                    return ServerValue::NotStored(req_id);
                }
                match self.map.insert(key, IndexValue { flags, data }) {
                    Ok(_prior) => ServerValue::Stored(req_id),
                    Err(_) => ServerValue::NotStored(req_id),
                }
            },
        }
    }

    /// Executes the request in `buf` against the store and writes the
    /// reply into the same buffer: the frame for the op's response, or an
    /// empty buffer where no packet is owed (a `get` miss, or a request
    /// that does not decode). The entry count and the capacity move as
    /// the decoded op asks; parameters never change and the capacity
    /// never decreases.
    pub fn handle_network_request(&mut self, buf: Vec<u8>) -> (r: Vec<u8>)
        requires
            old(self).wf(),
        ensures
            final(self).wf(),
            final(self).spec_index().spec_params() == old(self).spec_index().spec_params(),
            final(self).spec_index().spec_cap() >= old(self).spec_index().spec_cap(),
            match decode_spec(buf@) {
                Ok(cmd) => {
                    &&& old(self).spec_can_apply(cmd) ==> ({
                        &&& final(self)@ == store_after(old(self)@, cmd)
                        &&& r@ == encoded_bytes(response_model(old(self)@, cmd))
                        &&& final(self).spec_index().spec_len() == old(self).spec_len_after(cmd)
                        &&& final(self).spec_index().spec_cap() == old(self).spec_cap_after(cmd)
                    })
                    &&& !old(self).spec_can_apply(cmd) ==> ({
                        &&& final(self)@ == old(self)@
                        &&& r@ == encoded_bytes(
                            ServerValueModel::NotStored { req_id: cmd_req_id(cmd) },
                        )
                        &&& final(self).spec_index().spec_len()
                            == old(self).spec_index().spec_len()
                        &&& final(self).spec_index().spec_cap()
                            == old(self).spec_index().spec_cap()
                    })
                },
                Err(_) => ({
                    &&& final(self)@ == old(self)@
                    &&& r@ == Seq::<u8>::empty()
                    &&& final(self).spec_index().spec_len() == old(self).spec_index().spec_len()
                    &&& final(self).spec_index().spec_cap() == old(self).spec_index().spec_cap()
                }),
            },
    {
        let mut decoder = Decoder::new(buf);
        let response = match decoder.decode() {
            Ok(value) => self.execute_cmd(value),
            Err(_) => {
                let mut out = decoder.destroy();
                out.clear();
                return out;
            },
        };
        let mut out = decoder.destroy();
        match &response {
            ServerValue::NoReply => {
                out.clear();
                out
            },
            _ => {
                buf_encode(&response, &mut out);
                out
            },
        }
    }
}

/// Law: what a well-formed store guarantees at every quiescent point —
/// that is, after construction and after every call, all of which keep
/// `wf`. Its index is well-formed (so every index law applies to it),
/// its parameters are valid, and the load factor stays within
/// `max_load`: `len * max_load_den <= capacity * max_load_num`, hence
/// the store always holds fewer entries than it has slots.
pub proof fn lemma_store_quiescent(s: SashStore)
    requires
        s.wf(),
    ensures
        s.spec_index().wf(),
        params_valid(s.spec_index().spec_params()),
        1 <= s.spec_index().spec_cap(),
        0 <= s.spec_index().spec_len() < s.spec_index().spec_cap(),
        s.spec_index().spec_len() * s.spec_index().spec_params().max_load_den as int
            <= s.spec_index().spec_cap() * s.spec_index().spec_params().max_load_num as int,
{
    lemma_load_factor(s.spec_index());
}

/// Law: a store that holds no entry, and whose table has room for one
/// more within its load factor, can apply every op: in particular any
/// well-sized `set` against a freshly constructed store of reasonable
/// capacity answers `Stored` and lands in the map.
pub proof fn lemma_empty_store_applies(s: SashStore, cmd: ClientValueModel)
    requires
        s.wf(),
        s.spec_index().spec_len() == 0,
        !s.spec_index().spec_needs_grow(),
    ensures
        s.spec_can_apply(cmd),
{
    match cmd {
        ClientValueModel::Get { .. } => {},
        ClientValueModel::Put { key, flags, data, .. } => {
            lemma_empty_table_admits_insert(s.spec_index(), key, flags, data);
        },
    }
}

} // verus!
