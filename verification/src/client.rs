//! The client facade: owns one linked descriptor registry and one
//! connection configuration, and exposes the read-only listing operations
//! and default-request construction to the surrounding application.

use vstd::prelude::*;

verus! {

use crate::message::{default_msg, empty_msg_v, msg_v, DynamicMessage};
use crate::registry::{
    flat_registry, message_resolves, resolve_message_v, svc_views, wf_registry,
    DescriptorLinkError, DescriptorRegistry,
};
use crate::schema::{MethodSchema, MethodSchemaV, RawDescriptorSet, ServiceSchema};

/// The configuration a client is built from: a default address, default
/// metadata entries, and the raw descriptor set to link.
pub struct ProtoTuiConfig {
    pub address: String,
    pub metadata: Vec<(String, String)>,
    /// The per-call deadline in milliseconds, if any; exceeding it maps
    /// to `RpcError::Timeout`.
    pub timeout_ms: Option<u64>,
    pub descriptors: RawDescriptorSet,
}

/// The connection configuration kept for issuing calls.
pub struct GrpcClientConfig(pub ProtoTuiConfig);

/// The views of a method list.
pub open spec fn meth_views(s: Seq<MethodSchema>) -> Seq<MethodSchemaV> {
    s.map_values(|m: MethodSchema| m@)
}

/// The client facade over the proto descriptor registry and the gRPC
/// connection configuration.
pub struct CoreClient {
    /// The linked proto descriptor registry.
    pub desc: DescriptorRegistry,
    /// Config to create a new gRPC client.
    pub grpc: GrpcClientConfig,
}

impl CoreClient {
    /// Links the configuration's descriptor set and keeps the connection
    /// configuration.  Construction is all-or-nothing.
    pub fn new(cfg: ProtoTuiConfig) -> (r: Result<CoreClient, DescriptorLinkError>)
        ensures
            match r {
                Ok(c) => c.desc@ == flat_registry(cfg.descriptors@) && wf_registry(c.desc@)
                    && c.grpc.0.address@ == cfg.address@ && c.grpc.0.metadata@ == cfg.metadata@
                    && c.grpc.0.timeout_ms == cfg.timeout_ms,
                Err(_) => !wf_registry(flat_registry(cfg.descriptors@)),
            },
    {
        match DescriptorRegistry::from_raw(&cfg.descriptors) {
            Ok(desc) => Ok(CoreClient { desc, grpc: GrpcClientConfig(cfg) }),
            Err(e) => Err(e),
        }
    }

    /// Returns the proto services, in declaration order.
    pub fn get_services(&self) -> (r: Vec<ServiceSchema>)
        ensures
            svc_views(r@) == self.desc@.services,
    {
        self.desc.list_services()
    }

    /// Returns the proto methods of a given service, in declaration order.
    #[verifier::loop_isolation(false)]
    pub fn get_methods(&self, service: &ServiceSchema) -> (r: Vec<MethodSchema>)
        ensures
            meth_views(r@) == service@.methods,
    {
        let mut out: Vec<MethodSchema> = Vec::new();
        let mut i: usize = 0;
        while i < service.methods.len()
            invariant
                0 <= i <= service.methods@.len(),
                out@.len() == i,
                forall|j: int| 0 <= j < i ==> out@[j]@ == service@.methods[j],
            decreases service.methods@.len() - i,
        {
            out.push(service.methods[i].dup());
            proof {
                assert(service@.methods[i as int] == service.methods@[i as int]@);
            }
            i += 1;
        }
        proof {
            assert(meth_views(out@) =~= service@.methods);
        }
        out
    }

    /// Builds the default request message for a method: the method's input
    /// type is resolved in the registry and default-populated.
    pub fn get_request(&self, method: &MethodSchema) -> (r: DynamicMessage)
        ensures
            message_resolves(self.desc@.messages, method@.input) && wf_registry(self.desc@)
                ==> msg_v(r) == default_msg(resolve_message_v(self.desc@.messages, method@.input)),
            message_resolves(self.desc@.messages, method@.input) ==> exists|i: int|
                0 <= i < self.desc@.messages.len() && self.desc@.messages[i].name == method@.input
                    && msg_v(r) == default_msg(self.desc@.messages[i]),
            !message_resolves(self.desc@.messages, method@.input) ==> msg_v(r) == empty_msg_v(),
    {
        match self.desc.resolve_message(method.input.as_str()) {
            Ok(ms) => DynamicMessage::build_default(&ms),
            Err(_) => DynamicMessage::new_empty(),
        }
    }

    /// Returns the default address as defined in the configuration.
    pub fn get_default_address(&self) -> (r: String)
        ensures
            r@ == self.grpc.0.address@,
    {
        self.grpc.0.address.clone()
    }
}

} // verus!
