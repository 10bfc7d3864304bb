//! Checked read access to a compact image.
use vstd::prelude::*;
use vstd::slice::slice_subrange;
use vstd::string::StringSliceAdditionalSpecFns;
use crate::error::ZeroPodError;
use crate::pod::text::utf8_str;
use super::model::{SchemaView, TailKind};
use super::schema::{span_ok, CompactSchema, Span};
use super::lemmas::lemma_validate_ok;

verus! {

/// Checks `data` against `schema`.
pub fn validate(schema: &CompactSchema, data: &[u8]) -> (r: Result<(), ZeroPodError>)
    ensures
        r == schema@.validate(data@),
{
    match schema.scan(data) {
        Ok(_) => Ok(()),
        Err(e) => Err(e),
    }
}

/// The header of a checked image.
pub fn header<'a>(schema: &CompactSchema, data: &'a [u8]) -> (r: Result<&'a [u8], ZeroPodError>)
    ensures
        r is Ok <==> schema@.validate(data@) is Ok,
        r matches Err(e) ==> schema@.validate(data@) == Err::<(), ZeroPodError>(e),
        r matches Ok(h) ==> h@ == data@.subrange(0, schema@.header_size() as int),
{
    match schema.scan(data) {
        Ok(_) => {
            let hs = schema.header_size();
            Ok(slice_subrange(data, 0, hs))
        },
        Err(e) => Err(e),
    }
}

/// Read access to an image that passed the check.
pub struct CompactRef<'a> {
    schema: &'a CompactSchema,
    data: &'a [u8],
    spans: Vec<Span>,
}

impl<'a> CompactRef<'a> {
    #[verifier::type_invariant]
    spec fn located(self) -> bool {
        &&& self.schema@.validate(self.data@) is Ok
        &&& self.spans@.len() == self.schema@.tails.len()
        &&& forall|i: int|
            0 <= i < self.spans@.len() ==> #[trigger] span_ok(
                self.spans@[i],
                self.schema@,
                self.data@,
                i,
            )
    }

    pub closed spec fn layout(self) -> SchemaView {
        self.schema@
    }

    pub closed spec fn bytes(self) -> Seq<u8> {
        self.data@
    }

    pub fn new(schema: &'a CompactSchema, data: &'a [u8]) -> (r: Result<Self, ZeroPodError>)
        ensures
            r is Ok <==> schema@.validate(data@) is Ok,
            r matches Err(e) ==> schema@.validate(data@) == Err::<(), ZeroPodError>(e),
            r matches Ok(v) ==> v.layout() == schema@ && v.bytes() == data@,
    {
        match schema.scan(data) {
            Ok((spans, _)) => Ok(CompactRef { schema, data, spans }),
            Err(e) => Err(e),
        }
    }

    /// The header of the image; the image is one that passed the check.
    pub fn header(&self) -> (r: &'a [u8])
        ensures
            self.layout().validate(self.bytes()) is Ok,
            r@ == self.bytes().subrange(0, self.layout().header_size() as int),
    {
        proof {
            use_type_invariant(self);
            lemma_validate_ok(self.schema@, self.data@);
        }
        let hs = self.schema.header_size();
        slice_subrange(self.data, 0, hs)
    }

    /// The length that tail field `i` records.
    pub fn count(&self, i: usize) -> (r: u64)
        requires
            i < self.layout().tails.len(),
        ensures
            r as nat == self.layout().count(self.bytes(), i as int),
    {
        proof {
            use_type_invariant(self);
            assert(span_ok(self.spans@[i as int], self.schema@, self.data@, i as int));
        }
        self.spans[i].count
    }

    /// The payload of tail field `i`; `None` when an optional field is absent.
    pub fn field(&self, i: usize) -> (r: Option<&'a [u8]>)
        requires
            i < self.layout().tails.len(),
        ensures
            r is Some <==> self.layout().present(self.bytes(), i as int),
            r matches Some(b) ==> b@ == self.layout().payload(self.bytes(), i as int),
    {
        proof {
            use_type_invariant(self);
            lemma_validate_ok(self.schema@, self.data@);
            assert(span_ok(self.spans@[i as int], self.schema@, self.data@, i as int));
            assert(self.schema@.walk_err_at(self.data@, i as int) is None);
        }
        let sp = self.spans[i];
        let _dlen = self.data.len();
        if sp.present {
            Some(slice_subrange(self.data, sp.payload, sp.payload + sp.len))
        } else {
            None
        }
    }

    /// The text of string field `i`; `None` when an optional field is absent.
    pub fn text(&self, i: usize) -> (r: Option<&'a str>)
        requires
            i < self.layout().tails.len(),
            self.layout().tails[i as int].kind == TailKind::Str,
        ensures
            r is Some <==> self.layout().present(self.bytes(), i as int),
            r matches Some(s) ==> s.spec_bytes() == self.layout().payload(self.bytes(), i as int),
    {
        proof {
            use_type_invariant(self);
            lemma_validate_ok(self.schema@, self.data@);
            assert(self.schema@.content_err_at(self.data@, i as int) is None);
        }
        match self.field(i) {
            Some(b) => match utf8_str(b) {
                Some(s) => Some(s),
                None => vstd::pervasive::unreached(),
            },
            None => None,
        }
    }
}

} // verus!
