//! The `wrpc:blobstore` records that cross the wire, with their encodings.

use vstd::prelude::*;

use crate::leb128::{uleb, write_u64};
use crate::wire::{
    decoded, lemma_str_roundtrip, lemma_u64_read_roundtrip, map_read, read_str, read_u64_at,
    str_bytes, str_fits, str_read, u64_read, write_str, CodecError, Read,
};

verus! {

/// Metadata of a container.
#[derive(Clone, Copy, Debug, PartialEq, Eq)]
pub struct ContainerMetadata {
    pub created_at: u64,
}

impl DeepView for ContainerMetadata {
    type V = ContainerMetadata;

    open spec fn deep_view(&self) -> ContainerMetadata {
        *self
    }
}

/// Encoding of container metadata: the creation time as a `u64` varint.
pub open spec fn container_metadata_bytes(v: ContainerMetadata) -> Seq<u8> {
    uleb(v.created_at as nat)
}

/// Reading container metadata.
pub open spec fn container_metadata_read(t: Seq<u8>, k: nat) -> Read<ContainerMetadata> {
    map_read(u64_read(t, k), |created_at: u64| ContainerMetadata { created_at })
}

impl ContainerMetadata {
    /// Appends the encoding to `payload`.
    pub fn encode(self, payload: &mut Vec<u8>) -> (r: Result<(), CodecError>)
        ensures
            r is Ok,
            final(payload)@ == old(payload)@ + container_metadata_bytes(self),
    {
        write_u64(self.created_at, payload);
        Ok(())
    }

    /// Reads container metadata at position `k` of `src`.
    pub fn receive(src: &[u8], k: usize) -> (r: Result<Option<(ContainerMetadata, usize)>, CodecError>)
        ensures
            decoded(r) == container_metadata_read(src@, k as nat),
    {
        match read_u64_at(src, k) {
            Err(x) => Err(x),
            Ok(None) => Ok(None),
            Ok(Some((created_at, e))) => Ok(Some((ContainerMetadata { created_at }, e))),
        }
    }
}

/// Container metadata reads back as itself, whatever precedes or follows it.
pub proof fn lemma_container_metadata_roundtrip(p: Seq<u8>, v: ContainerMetadata, rest: Seq<u8>)
    ensures
        container_metadata_read(p + container_metadata_bytes(v) + rest, p.len()) == Read::Done(
            v,
            p.len() + container_metadata_bytes(v).len(),
        ),
{
    lemma_u64_read_roundtrip(p, v.created_at, rest);
}

/// Metadata of an object.
#[derive(Clone, Copy, Debug, PartialEq, Eq)]
pub struct ObjectMetadata {
    pub created_at: u64,
    pub size: u64,
}

impl DeepView for ObjectMetadata {
    type V = ObjectMetadata;

    open spec fn deep_view(&self) -> ObjectMetadata {
        *self
    }
}

/// Encoding of object metadata: the creation time, then the size, as `u64`
/// varints.
pub open spec fn object_metadata_bytes(v: ObjectMetadata) -> Seq<u8> {
    uleb(v.created_at as nat) + uleb(v.size as nat)
}

/// Reading object metadata.
pub open spec fn object_metadata_read(t: Seq<u8>, k: nat) -> Read<ObjectMetadata> {
    match u64_read(t, k) {
        Read::Done(created_at, e) => map_read(
            u64_read(t, e),
            |size: u64| ObjectMetadata { created_at, size },
        ),
        Read::Incomplete => Read::Incomplete,
        Read::Invalid(x) => Read::Invalid(x),
    }
}

impl ObjectMetadata {
    /// Appends the encoding to `payload`.
    pub fn encode(self, payload: &mut Vec<u8>) -> (r: Result<(), CodecError>)
        ensures
            r is Ok,
            final(payload)@ == old(payload)@ + object_metadata_bytes(self),
    {
        write_u64(self.created_at, payload);
        write_u64(self.size, payload);
        assert(payload@ =~= old(payload)@ + object_metadata_bytes(self));
        Ok(())
    }

    /// Reads object metadata at position `k` of `src`.
    pub fn receive(src: &[u8], k: usize) -> (r: Result<Option<(ObjectMetadata, usize)>, CodecError>)
        ensures
            decoded(r) == object_metadata_read(src@, k as nat),
    {
        match read_u64_at(src, k) {
            Err(x) => Err(x),
            Ok(None) => Ok(None),
            Ok(Some((created_at, e))) => match read_u64_at(src, e) {
                Err(x) => Err(x),
                Ok(None) => Ok(None),
                Ok(Some((size, e2))) => Ok(Some((ObjectMetadata { created_at, size }, e2))),
            },
        }
    }
}

/// Object metadata reads back as itself, whatever precedes or follows it.
pub proof fn lemma_object_metadata_roundtrip(p: Seq<u8>, v: ObjectMetadata, rest: Seq<u8>)
    ensures
        object_metadata_read(p + object_metadata_bytes(v) + rest, p.len()) == Read::Done(
            v,
            p.len() + object_metadata_bytes(v).len(),
        ),
{
    let a = uleb(v.created_at as nat);
    let b = uleb(v.size as nat);
    let t = p + object_metadata_bytes(v) + rest;
    assert(t =~= p + a + (b + rest));
    lemma_u64_read_roundtrip(p, v.created_at, b + rest);
    assert(t =~= p + a + b + rest);
    lemma_u64_read_roundtrip(p + a, v.size, rest);
}

/// The name of an object within its container.
#[derive(Clone, Debug, PartialEq, Eq)]
pub struct ObjectId {
    pub container: String,
    pub object: String,
}

/// The value an `ObjectId` stands for.
pub struct ObjectIdView {
    pub container: Seq<char>,
    pub object: Seq<char>,
}

impl DeepView for ObjectId {
    type V = ObjectIdView;

    open spec fn deep_view(&self) -> ObjectIdView {
        ObjectIdView { container: self.container@, object: self.object@ }
    }
}

/// Encoding of an object id: the container name, then the object name.
pub open spec fn object_id_bytes(v: ObjectIdView) -> Seq<u8> {
    str_bytes(v.container) + str_bytes(v.object)
}

/// Whether both names are short enough to be written.
pub open spec fn object_id_fits(v: ObjectIdView) -> bool {
    str_fits(v.container) && str_fits(v.object)
}

/// Reading an object id.
pub open spec fn object_id_read(t: Seq<u8>, k: nat) -> Read<ObjectIdView> {
    match str_read(t, k) {
        Read::Done(container, e) => map_read(
            str_read(t, e),
            |object: Seq<char>| ObjectIdView { container, object },
        ),
        Read::Incomplete => Read::Incomplete,
        Read::Invalid(x) => Read::Invalid(x),
    }
}

impl ObjectId {
    /// Appends the encoding to `payload`; nothing is appended when a name is
    /// too long to be written.
    pub fn encode(self, payload: &mut Vec<u8>) -> (r: Result<(), CodecError>)
        ensures
            r is Ok <==> object_id_fits(self.deep_view()),
            r is Ok ==> final(payload)@ == old(payload)@ + object_id_bytes(self.deep_view()),
            r is Err ==> r == Err::<(), CodecError>(CodecError::TooLong) && final(payload)@ == old(
                payload,
            )@,
    {
        let mut buf: Vec<u8> = Vec::new();
        let r1 = write_str(self.container.as_str(), &mut buf);
        if r1.is_err() {
            return r1;
        }
        let r2 = write_str(self.object.as_str(), &mut buf);
        if r2.is_err() {
            return r2;
        }
        payload.append(&mut buf);
        assert(payload@ =~= old(payload)@ + object_id_bytes(self.deep_view()));
        Ok(())
    }

    /// Reads an object id at position `k` of `src`.
    pub fn receive(src: &[u8], k: usize) -> (r: Result<Option<(ObjectId, usize)>, CodecError>)
        ensures
            decoded(r) == object_id_read(src@, k as nat),
    {
        match read_str(src, k) {
            Err(x) => Err(x),
            Ok(None) => Ok(None),
            Ok(Some((container, e))) => match read_str(src, e) {
                Err(x) => Err(x),
                Ok(None) => Ok(None),
                Ok(Some((object, e2))) => Ok(Some((ObjectId { container, object }, e2))),
            },
        }
    }
}

/// An object id reads back as itself, whatever precedes or follows it.
pub proof fn lemma_object_id_roundtrip(p: Seq<u8>, v: ObjectIdView, rest: Seq<u8>)
    requires
        object_id_fits(v),
    ensures
        object_id_read(p + object_id_bytes(v) + rest, p.len()) == Read::Done(
            v,
            p.len() + object_id_bytes(v).len(),
        ),
{
    let a = str_bytes(v.container);
    let b = str_bytes(v.object);
    let t = p + object_id_bytes(v) + rest;
    assert(t =~= p + a + (b + rest));
    lemma_str_roundtrip(p, v.container, b + rest);
    assert(t =~= p + a + b + rest);
    lemma_str_roundtrip(p + a, v.object, rest);
}

} // verus!
