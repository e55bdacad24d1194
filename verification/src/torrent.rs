//! The torrent's description, as it was read from the metainfo file.
use crate::digest::{sha1, sha1_digest, MAX_DIGEST_INPUT};
use crate::error::Error;
use crate::utils::{percent_encoded, push_percent_encoded};
use vstd::prelude::*;

verus! {

/// The port that the client announces to the tracker.
pub const PORT: u32 = 6881;

/// The metainfo's `info` dictionary: the file and its pieces.
#[derive(Debug)]
pub struct Info {
    pub name: String,
    /// The digests of the pieces, twenty bytes each, one after the other.
    pub pieces: Vec<u8>,
    pub piece_length: u64,
    pub length: Option<u64>,
}

/// The metainfo, with the digest of its `info` dictionary.
#[derive(Debug)]
pub struct Torrent {
    pub info: Info,
    pub announce: Option<String>,
    pub creation_date: Option<i64>,
    pub comment: Option<String>,
    pub created_by: Option<String>,
    pub info_hash: Vec<u8>,
}

/// What to ask the tracker: the announce URL with the info-hash and the
/// peer id in its query, and the numbers that go in as further pairs.
#[derive(Debug)]
pub struct TrackerQuery {
    pub url: String,
    pub port: u32,
    pub uploaded: u64,
    pub downloaded: u64,
    pub left: u64,
}

/// The announce URL with the info-hash and the peer id, percent-encoded, in
/// its query.
pub open spec fn announce_url(announce: Seq<char>, info_hash: Seq<u8>, peer_id: Seq<u8>) -> Seq<
    char,
> {
    announce + "?info_hash="@ + percent_encoded(info_hash) + "&peer_id="@ + percent_encoded(
        peer_id,
    )
}

impl Torrent {
    /// The torrent with its info-hash: the SHA-1 digest of `info_bytes`,
    /// the bencoded `info` dictionary. Fails on an `info` too long to
    /// digest.
    pub fn new(
        info: Info,
        announce: Option<String>,
        creation_date: Option<i64>,
        comment: Option<String>,
        created_by: Option<String>,
        info_bytes: &[u8],
    ) -> (r: Result<Torrent, Error>)
        ensures
            r is Ok <==> info_bytes@.len() <= MAX_DIGEST_INPUT,
            r is Ok ==> {
                &&& r->Ok_0.info == info
                &&& r->Ok_0.announce == announce
                &&& r->Ok_0.creation_date == creation_date
                &&& r->Ok_0.comment == comment
                &&& r->Ok_0.created_by == created_by
                &&& r->Ok_0.info_hash@ == sha1(info_bytes@)
            },
            r is Err ==> r->Err_0 == Error::OversizedInfo,
    {
        match Self::generate_info_hash(info_bytes) {
            Ok(info_hash) => Ok(
                Torrent { info, announce, creation_date, comment, created_by, info_hash },
            ),
            Err(e) => Err(e),
        }
    }

    /// The SHA-1 digest of the bencoded `info` dictionary.
    pub fn generate_info_hash(info_bytes: &[u8]) -> (r: Result<Vec<u8>, Error>)
        ensures
            r is Ok <==> info_bytes@.len() <= MAX_DIGEST_INPUT,
            r is Ok ==> r->Ok_0@ == sha1(info_bytes@) && r->Ok_0@.len() == 20,
            r is Err ==> r->Err_0 == Error::OversizedInfo,
    {
        match sha1_digest(info_bytes) {
            Some(digest) => Ok(digest),
            None => Err(Error::OversizedInfo),
        }
    }

    /// What to ask the tracker as the client `peer_id`.
    ///
    /// Fails where the metainfo gave no file length, and then where it gave
    /// no announce URL.
    pub fn generate_tracker_url(&self, peer_id: &Vec<u8>) -> (r: Result<TrackerQuery, Error>)
        ensures
            match r {
                Ok(q) => {
                    &&& self.info.length is Some
                    &&& self.announce is Some
                    &&& q.url@ == announce_url(self.announce->0@, self.info_hash@, peer_id@)
                    &&& q.port == PORT
                    &&& q.uploaded == 0
                    &&& q.downloaded == 0
                    &&& q.left == self.info.length->0
                },
                Err(e) => e == if self.info.length is None {
                    Error::MissingLength
                } else {
                    Error::MissingAnnounce
                } && (self.info.length is None || self.announce is None),
            },
    {
        let length: u64 = match self.info.length {
            Some(length) => length,
            None => {
                return Err(Error::MissingLength);
            },
        };
        let announce: &String = match &self.announce {
            Some(announce) => announce,
            None => {
                return Err(Error::MissingAnnounce);
            },
        };
        let mut url = String::new();
        url.push_str(announce.as_str());
        url.push_str("?info_hash=");
        push_percent_encoded(&mut url, self.info_hash.as_slice());
        url.push_str("&peer_id=");
        push_percent_encoded(&mut url, peer_id.as_slice());
        assert(url@ =~= announce_url(announce@, self.info_hash@, peer_id@));
        Ok(TrackerQuery { url, port: PORT, uploaded: 0, downloaded: 0, left: length })
    }
}

} // verus!
