use vstd::prelude::*;

use crate::encoding::{
    distinct_encodings, enc_lookup, spec_prefs, parse_accept_encoding, Encoding, EncodingMap,
    EncodingVal,
};
use crate::middleware::{Middleware, Next};
use crate::request::RequestContext;
use crate::strmap::{lookup, lower_chars, spec_insert, EntryView};
use crate::Response;

verus! {

/// The gzip stream that flate2's encoder produces for the given bytes at
/// compression level 3. The output is a function of the input alone: the
/// encoder writes a fixed header (no timestamp, operating-system byte 255)
/// and the compressor is deterministic at a fixed level.
pub uninterp spec fn gzip_of(data: Seq<u8>) -> Seq<u8>;

/// Relies on flate2's write::GzEncoder at compression level 3: writing all
/// the input and finishing yields the gzip stream for those bytes. The sink
/// is a Vec, whose writes cannot fail, so neither call returns an error.
#[verifier::external_body]
fn gzip_compress(data: &[u8]) -> (r: Vec<u8>)
    ensures
        r@ == gzip_of(data@),
{
    let mut encoder = flate2::write::GzEncoder::new(
        Vec::with_capacity(data.len()),
        flate2::Compression::new(3),
    );
    std::io::Write::write_all(&mut encoder, data).unwrap();
    encoder.finish().unwrap()
}

/// The preference set a request carries: its Accept-Encoding header parsed,
/// or identity at quality one when the header is absent.
pub open spec fn spec_accepted(hs: Seq<EntryView>) -> Seq<EncodingVal> {
    match lookup(hs, lower_chars("accept-encoding"@)) {
        Some(v) => spec_prefs(v),
        None => seq![EncodingVal { encoding: Encoding::Identity, quality: 1000u16 }],
    }
}

/// Whether a request's preferences name gzip at all.
pub open spec fn spec_accepts_gzip(hs: Seq<EntryView>) -> bool {
    enc_lookup(spec_accepted(hs), Encoding::Gzip) is Some
}

/// How a response leaves the compression middleware, given what went in:
/// with gzip accepted and a body present, the body is the gzip stream of
/// the inner body and a `Content-Encoding: gzip` header is set; in every
/// other case the response is untouched.
pub open spec fn compressed(use_gzip: bool, inner: Response, outp: Response) -> bool {
    if use_gzip && inner.content is Some {
        &&& outp.status == inner.status
        &&& outp.headers@ == spec_insert(inner.headers@, "Content-Encoding"@, "gzip"@)
        &&& match (outp.content, inner.content) {
            (Some(oc), Some(ic)) => oc@ == gzip_of(ic@),
            _ => false,
        }
    } else {
        outp == inner
    }
}

/// Applies the compression decision to a response.
pub fn apply_compression(use_gzip: bool, resp: Response) -> (r: Response)
    ensures
        compressed(use_gzip, resp, r),
{
    if use_gzip {
        let Response { status, headers, content } = resp;
        match content {
            Some(c) => {
                let mut headers = headers;
                headers.insert(
                    String::from_str("Content-Encoding"),
                    String::from_str("gzip"),
                );
                let gz = gzip_compress(c.as_slice());
                Response { status, headers, content: Some(gz) }
            },
            None => Response { status, headers, content: None },
        }
    } else {
        resp
    }
}

/// The response-compression middleware.
pub struct CompressionMw {}

impl CompressionMw {
    /// The encoding preferences of the request in `ctx`.
    pub fn get_accepted_encodings(ctx: &RequestContext) -> (r: EncodingMap)
        ensures
            r@ == spec_accepted(ctx.request.headers@),
            distinct_encodings(r@),
    {
        match ctx.get_header("accept-encoding") {
            Some(h) => parse_accept_encoding(h),
            None => {
                let mut m = EncodingMap::new();
                m.insert(EncodingVal { encoding: Encoding::Identity, quality: 1000 });
                proof {
                    assert(m@ =~= seq![
                        EncodingVal { encoding: Encoding::Identity, quality: 1000u16 },
                    ]);
                }
                m
            },
        }
    }
}

impl Middleware for CompressionMw {
    /// Negotiates the content-coding, records it in the context, runs the
    /// rest of the chain, and compresses the resulting body when gzip was
    /// accepted.
    fn handle(&self, ctx: &mut RequestContext, next: Next<'_>) -> (r: Response)
        ensures
            exists|inner: Response|
                #[trigger] compressed(
                    spec_accepts_gzip(old(ctx).request.headers@),
                    inner,
                    r,
                ),
        decreases next.middlewares@.len(), 1int,
    {
        let encodings = Self::get_accepted_encodings(ctx);
        let use_gzip = encodings.contains_key(Encoding::Gzip);
        ctx.negotiated = Some(
            if use_gzip {
                Encoding::Gzip
            } else {
                Encoding::Identity
            },
        );
        let resp = next.run(ctx);
        let ghost inner = resp;
        let r = apply_compression(use_gzip, resp);
        proof {
            assert(compressed(spec_accepts_gzip(old(ctx).request.headers@), inner, r));
        }
        r
    }
}

} // verus!
