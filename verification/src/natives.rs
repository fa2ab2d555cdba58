//! Native-function layer: the existence check and signer
//! materialization, as pure decisions over resolved type arguments and
//! the transactional group store. Gas is a fixed base cost per call,
//! independent of the result.

use vstd::prelude::*;
use crate::tag::{Address, StructTag, TagModel, clone_bytes, clone_tag, tag_model};
use crate::codec::CorruptBlob;
use crate::member_map::lookup;
use crate::store::TxnContext;
use crate::tracker::{GroupKey, KeyModel};

verus! {

/// Gas charged by the resource-existence native: a fixed base cost.
#[derive(Clone, Copy, Debug)]
pub struct ExistsAtGasParameters {
    pub base_cost: u64,
}

/// Gas parameters for this module's natives.
#[derive(Clone, Copy, Debug)]
pub struct GasParameters {
    pub exists_at: ExistsAtGasParameters,
}

impl GasParameters {
    pub fn new(exists_at_base: u64) -> (r: GasParameters)
        ensures
            r.exists_at.base_cost == exists_at_base,
    {
        GasParameters { exists_at: ExistsAtGasParameters { base_cost: exists_at_base } }
    }
}

/// A type argument as the native sees it after resolution: a structural
/// type, or something no resource can have.
pub enum ResolvedType {
    Struct(StructTag),
    NonStruct,
}

/// Where resources of one structural type live, resolved once per type:
/// under their own storage key, or inside the given group.
pub enum ResourceLocation {
    Plain,
    InGroup(StructTag),
}

/// Failure of the native itself, distinct from member absence.
#[derive(Clone, Copy, Debug, PartialEq, Eq, Structural)]
pub enum NativeError {
    TypeResolutionFailure,
}

/// What one native call produced: the gas it charged, and its value or
/// its typed failure.
#[derive(Debug)]
pub struct NativeOutcome {
    pub gas_charged: u64,
    pub result: Result<bool, NativeError>,
}

/// The existence-check native: does a resource of the resolved type
/// exist at `address`? Group members resolve through the group store,
/// which logs a per-member read; plain resources by a bare key lookup.
/// The base cost is charged whatever the answer; a type argument that
/// is no structural type fails the call after charging; a corrupt
/// stored group blob aborts it.
pub fn native_exists_at(
    gas_params: &ExistsAtGasParameters,
    txn: &mut TxnContext,
    ty: &ResolvedType,
    location: &ResourceLocation,
    address: &Address,
) -> (r: Result<NativeOutcome, CorruptBlob>)
    requires
        old(txn).wf(),
    ensures
        final(txn).wf(),
        final(txn).base == old(txn).base,
        forall|k2: KeyModel| #[trigger] final(txn).group_entries(k2)
            == old(txn).group_entries(k2),
        forall|k: KeyModel, m: TagModel| final(txn).tracker.has_member_write(k, m)
            == old(txn).tracker.has_member_write(k, m),
        forall|k: KeyModel| final(txn).tracker.has_group_read(k)
            == old(txn).tracker.has_group_read(k),
        match r {
            Ok(outcome) => {
                &&& outcome.gas_charged == gas_params.base_cost
                &&& match *ty {
                    ResolvedType::NonStruct => outcome.result
                        == Err::<bool, NativeError>(NativeError::TypeResolutionFailure),
                    ResolvedType::Struct(t) => match *location {
                        ResourceLocation::InGroup(g) => outcome.result
                            == Ok::<bool, NativeError>(lookup(
                                old(txn).group_entries((address.bytes@, tag_model(g))),
                                tag_model(t),
                            ) is Some),
                        ResourceLocation::Plain => outcome.result
                            == Ok::<bool, NativeError>(
                                old(txn).base_blob((address.bytes@, tag_model(t))) is Some,
                            ),
                    },
                }
            },
            Err(_) => match *ty {
                ResolvedType::Struct(t) => match *location {
                    ResourceLocation::InGroup(g) => {
                        &&& !old(txn).cached((address.bytes@, tag_model(g)))
                        &&& !old(txn).loads_clean((address.bytes@, tag_model(g)))
                    },
                    ResourceLocation::Plain => false,
                },
                ResolvedType::NonStruct => false,
            },
        },
{
    let t = match ty {
        ResolvedType::NonStruct => {
            proof {
                assert forall|k2: KeyModel| #[trigger] txn.group_entries(k2)
                    == old(txn).group_entries(k2) by {}
            }
            return Ok(NativeOutcome {
                gas_charged: gas_params.base_cost,
                result: Err(NativeError::TypeResolutionFailure),
            });
        },
        ResolvedType::Struct(t) => t,
    };
    match location {
        ResourceLocation::InGroup(g) => {
            let group_key = GroupKey {
                address: Address { bytes: clone_bytes(&address.bytes) },
                group: clone_tag(g),
            };
            let found = match txn.get_member(&group_key, t) {
                Ok(v) => matches!(v, Some(_)),
                Err(e) => {
                    return Err(e);
                },
            };
            Ok(NativeOutcome {
                gas_charged: gas_params.base_cost,
                result: Ok(found),
            })
        },
        ResourceLocation::Plain => {
            let bare_key = GroupKey {
                address: Address { bytes: clone_bytes(&address.bytes) },
                group: clone_tag(t),
            };
            let found = matches!(txn.base.get_blob(&bare_key), Some(_));
            proof {
                assert forall|k2: KeyModel| #[trigger] txn.group_entries(k2)
                    == old(txn).group_entries(k2) by {}
            }
            Ok(NativeOutcome {
                gas_charged: gas_params.base_cost,
                result: Ok(found),
            })
        },
    }
}

/// An opaque signer capability bound to one address.
pub struct Signer {
    pub address: Address,
}

/// The signer-materialization native: always succeeds, charges its
/// fixed base cost, and binds the capability to the given address.
/// Authority to call it is the caller's concern, not this layer's.
pub fn native_create_signer(base_cost: u64, address: Address) -> (r: (Signer, u64))
    ensures
        r.0.address == address,
        r.1 == base_cost,
{
    (Signer { address }, base_cost)
}

} // verus!
