//! Preparation and failure mapping for unary calls.  The core validates
//! the address, frames the encoded request and attaches the configured
//! metadata; the surrounding application performs the network exchange
//! and maps its outcome back through `unary_failure`.

use vstd::prelude::*;

verus! {

use vstd::string::StringExecFns;

use crate::client::CoreClient;
use crate::message::{msg_v, DynamicMessage};
use crate::schema::{MethodSchema, ServiceSchema};
use crate::wire::enc_msg;

/// Why a unary call failed.
#[derive(Debug, PartialEq, Eq)]
pub enum RpcError {
    /// The target address did not parse; no connection was attempted.
    InvalidAddress,
    /// The transport could not reach the endpoint.
    ConnectFailed(String),
    /// The server rejected the call with a gRPC status.
    StatusError(u32, String),
    /// The response bytes did not match the output schema.
    DecodeFailed,
    /// The per-call deadline elapsed.
    Timeout,
}

impl RpcError {
    /// A short machine-readable tag for this error.
    pub fn kind(&self) -> (r: &'static str)
        ensures
            r@ == match self {
                RpcError::InvalidAddress => "InvalidAddress"@,
                RpcError::ConnectFailed(_) => "ConnectFailed"@,
                RpcError::StatusError(_, _) => "StatusError"@,
                RpcError::DecodeFailed => "DecodeFailed"@,
                RpcError::Timeout => "Timeout"@,
            },
    {
        match self {
            RpcError::InvalidAddress => "InvalidAddress",
            RpcError::ConnectFailed(_) => "ConnectFailed",
            RpcError::StatusError(_, _) => "StatusError",
            RpcError::DecodeFailed => "DecodeFailed",
            RpcError::Timeout => "Timeout",
        }
    }
}

/// What the transport reports back for a call that did not yield
/// response bytes.
#[derive(Debug, PartialEq, Eq)]
pub enum TransportEvent {
    /// The server answered with a gRPC status error.
    Status(u32, String),
    /// The endpoint could not be reached.
    ConnectFailed(String),
    /// The deadline elapsed.
    TimedOut,
}

/// A fully prepared unary exchange: validated address, method path
/// components, framed request bytes and metadata to attach.
pub struct PreparedCall {
    pub address: String,
    pub service: String,
    pub method: String,
    pub frame: Vec<u8>,
    pub metadata: Vec<(String, String)>,
    /// The per-call deadline from the configuration, for the transport.
    pub timeout_ms: Option<u64>,
}

/// The views of a metadata list.
pub open spec fn pairs_view(s: Seq<(String, String)>) -> Seq<(Seq<char>, Seq<char>)> {
    s.map_values(|p: (String, String)| (p.0@, p.1@))
}

/// The big-endian four-byte encoding of a length.
pub open spec fn be32(l: nat) -> Seq<u8> {
    seq![
        ((l / 16777216) % 256) as u8,
        ((l / 65536) % 256) as u8,
        ((l / 256) % 256) as u8,
        (l % 256) as u8,
    ]
}

/// The gRPC message frame: a zero compression flag, the big-endian
/// length, then the encoded message.
pub open spec fn frame_of(p: Seq<u8>) -> Seq<u8> {
    seq![0u8] + be32(p.len()) + p
}

/// The fully-qualified HTTP path of a method: "/<service>/<method>".
pub fn method_path(service: &ServiceSchema, method: &MethodSchema) -> (r: String)
    ensures
        r@ == seq!['/'] + service@.name + seq!['/'] + method@.name,
{
    proof {
        reveal_strlit("/");
    }
    let mut out: String = <String as StringExecFns>::from_str("/");
    out.append(service.name.as_str());
    out.append("/");
    out.append(method.name.as_str());
    proof {
        assert(out@ =~= seq!['/'] + service@.name + seq!['/'] + method@.name);
    }
    out
}


/// The payload inside a gRPC message frame, when the compression flag
/// is zero and the four-byte big-endian length matches the remainder.
pub open spec fn unframe(s: Seq<u8>) -> Option<Seq<u8>> {
    if s.len() >= 5 && s[0] == 0 && be32_val(s) == s.len() - 5 {
        Some(s.skip(5))
    } else {
        None
    }
}

/// The value of the four-byte big-endian length field of a frame.
pub open spec fn be32_val(s: Seq<u8>) -> int {
    (s[1] as int) * 16777216 + (s[2] as int) * 65536 + (s[3] as int) * 256 + (s[4] as int)
}

/// Stripping a frame inverts framing for payloads that fit the
/// four-byte length field.
pub proof fn lemma_unframe_frame(p: Seq<u8>)
    requires
        p.len() < 0x1_0000_0000,
    ensures
        unframe(frame_of(p)) == Some(p),
{
    let s = frame_of(p);
    let l = p.len() as int;
    assert(s.len() == 5 + p.len());
    assert(s[0] == 0u8);
    assert(s[1] == ((l / 16777216) % 256) as u8);
    assert(s[2] == ((l / 65536) % 256) as u8);
    assert(s[3] == ((l / 256) % 256) as u8);
    assert(s[4] == (l % 256) as u8);
    assert(l / 16777216 < 256);
    assert((l / 16777216) % 256 == l / 16777216);
    assert(l == (l / 256) * 256 + l % 256);
    assert(l / 256 == (l / 65536) * 256 + (l / 256) % 256) by {
        assert(l / 256 / 256 == l / 65536) by (nonlinear_arith)
            requires
                l >= 0,
        ;
        assert(l / 256 == (l / 256 / 256) * 256 + (l / 256) % 256);
    }
    assert(l / 65536 == (l / 16777216) * 256 + (l / 65536) % 256) by {
        assert(l / 65536 / 256 == l / 16777216) by (nonlinear_arith)
            requires
                l >= 0,
        ;
        assert(l / 65536 == (l / 65536 / 256) * 256 + (l / 65536) % 256);
    }
    assert(be32_val(s) == l);
    assert(s.skip(5) =~= p);
}

/// Whether a string parses as a URI.  The parse depends on the
/// characters alone, so its outcome carries a name.
pub uninterp spec fn uri_ok(s: Seq<char>) -> bool;

/// Relies on http::Uri::try_from(&str): decides whether the address
/// parses as a URI; the parser rejects an empty string.
#[verifier::external_body]
fn parse_uri_ok(s: &str) -> (r: bool)
    ensures
        r == uri_ok(s@),
        s@.len() == 0 ==> !r,
{
    http::Uri::try_from(s).is_ok()
}

impl CoreClient {
    /// Validates the address, encodes and frames the request, and gathers
    /// the configured metadata.  No network activity happens here; on a
    /// malformed address the call fails before any exchange.
    #[verifier::loop_isolation(false)]
    pub fn prepare_unary(
        &self,
        service: &ServiceSchema,
        method: &MethodSchema,
        request: &DynamicMessage,
        address: &str,
    ) -> (r: Result<PreparedCall, RpcError>)
        requires
            enc_msg(msg_v(*request)).len() < 0x1_0000_0000,
        ensures
            r is Ok <==> uri_ok(address@),
            address@.len() == 0 ==> r is Err,
            r matches Err(e) ==> e == RpcError::InvalidAddress,
            r matches Ok(pc) ==> pc.frame@ == frame_of(enc_msg(msg_v(*request))) && pc.address@
                == address@ && pc.service@ == service@.name && pc.method@ == method@.name
                && pairs_view(pc.metadata@) == pairs_view(self.grpc.0.metadata@)
                && pc.timeout_ms == self.grpc.0.timeout_ms,
    {
        if !parse_uri_ok(address) {
            return Err(RpcError::InvalidAddress);
        }
        let body = crate::wire::encode(request);
        let blen = body.len() as u64;
        let mut frame: Vec<u8> = Vec::new();
        frame.push(0);
        frame.push(((blen / 16777216) % 256) as u8);
        frame.push(((blen / 65536) % 256) as u8);
        frame.push(((blen / 256) % 256) as u8);
        frame.push((blen % 256) as u8);
        let ghost pre = frame@;
        let mut k: usize = 0;
        while k < body.len()
            invariant
                0 <= k <= body@.len(),
                frame@ == pre + body@.take(k as int),
            decreases body@.len() - k,
        {
            frame.push(body[k]);
            proof {
                assert(frame@ =~= pre + body@.take(k as int + 1));
            }
            k += 1;
        }
        let mut metadata: Vec<(String, String)> = Vec::new();
        let mut i: usize = 0;
        while i < self.grpc.0.metadata.len()
            invariant
                0 <= i <= self.grpc.0.metadata@.len(),
                metadata@.len() == i,
                forall|j: int|
                    0 <= j < i ==> metadata@[j].0@ == self.grpc.0.metadata@[j].0@
                        && metadata@[j].1@ == self.grpc.0.metadata@[j].1@,
            decreases self.grpc.0.metadata@.len() - i,
        {
            metadata.push(
                (self.grpc.0.metadata[i].0.clone(), self.grpc.0.metadata[i].1.clone()),
            );
            i += 1;
        }
        proof {
            assert(body@.take(body@.len() as int) =~= body@);
            assert(frame@ =~= frame_of(enc_msg(msg_v(*request))));
            assert(pairs_view(metadata@) =~= pairs_view(self.grpc.0.metadata@));
        }
        Ok(
            PreparedCall {
                address: address.to_owned(),
                service: service.name.clone(),
                method: method.name.clone(),
                frame,
                metadata,
                timeout_ms: self.grpc.0.timeout_ms,
            },
        )
    }


    /// Completes a successful unary exchange: strips the gRPC message
    /// frame from the response bytes and decodes the payload against the
    /// method's output schema.  A malformed frame or a payload that
    /// breaks against the schema maps to `RpcError::DecodeFailed`.
    #[verifier::loop_isolation(false)]
    pub fn complete_unary(&self, method: &MethodSchema, response: &[u8]) -> (r: Result<
        DynamicMessage,
        RpcError,
    >)
        requires
            crate::registry::wf_registry(self.desc@),
            crate::registry::message_resolves(self.desc@.messages, method@.output),
        ensures
            match unframe(response@) {
                None => r == Err::<DynamicMessage, RpcError>(RpcError::DecodeFailed),
                Some(b) => match crate::wire::decode_spec(
                    b,
                    crate::registry::resolve_message_v(self.desc@.messages, method@.output),
                    self.desc@,
                ) {
                    Ok(mv) => r matches Ok(m) && msg_v(m) == mv,
                    Err(_) => r == Err::<DynamicMessage, RpcError>(RpcError::DecodeFailed),
                },
            },
    {
        let n = response.len();
        if n < 5 {
            return Err(RpcError::DecodeFailed);
        }
        if *vstd::slice::slice_index_get(response, 0) != 0 {
            return Err(RpcError::DecodeFailed);
        }
        let l = (*vstd::slice::slice_index_get(response, 1) as u64) * 16777216 + (
        *vstd::slice::slice_index_get(response, 2) as u64) * 65536 + (
        *vstd::slice::slice_index_get(response, 3) as u64) * 256 + (
        *vstd::slice::slice_index_get(response, 4) as u64);
        if l != (n - 5) as u64 {
            return Err(RpcError::DecodeFailed);
        }
        let mut payload: Vec<u8> = Vec::new();
        let mut i: usize = 5;
        while i < n
            invariant
                5 <= i <= n,
                payload@ == response@.subrange(5, i as int),
            decreases n - i,
        {
            payload.push(*vstd::slice::slice_index_get(response, i));
            proof {
                assert(payload@ =~= response@.subrange(5, i as int + 1));
            }
            i += 1;
        }
        proof {
            assert(payload@ =~= response@.skip(5));
        }
        let ms = match self.desc.resolve_message(method.output.as_str()) {
            Ok(ms) => ms,
            Err(_) => {
                proof {
                    assert(false);
                }
                return Err(RpcError::DecodeFailed);
            },
        };
        proof {
            let k = choose|k: int|
                0 <= k < self.desc@.messages.len() && self.desc@.messages[k] == ms@;
            assert(crate::schema::wf_message_schema(self.desc@.messages[k]));
        }
        match crate::wire::decode(payload.as_slice(), &ms, &self.desc) {
            Ok(m) => Ok(m),
            Err(_) => Err(RpcError::DecodeFailed),
        }
    }

    /// Maps a failed transport outcome to the uniform error taxonomy: a
    /// server status becomes `StatusError` with the server's code and
    /// message, an unreachable endpoint `ConnectFailed`, and an elapsed
    /// deadline `Timeout`.
    pub fn unary_failure(&self, event: TransportEvent) -> (r: RpcError)
        ensures
            match event {
                TransportEvent::Status(c, m) => r matches RpcError::StatusError(c2, m2) && c2 == c
                    && m2@ == m@,
                TransportEvent::ConnectFailed(m) => r matches RpcError::ConnectFailed(m2) && m2@
                    == m@,
                TransportEvent::TimedOut => r == RpcError::Timeout,
            },
    {
        match event {
            TransportEvent::Status(c, m) => RpcError::StatusError(c, m),
            TransportEvent::ConnectFailed(m) => RpcError::ConnectFailed(m),
            TransportEvent::TimedOut => RpcError::Timeout,
        }
    }
}

} // verus!
