use vstd::prelude::*;

verus! {

/// Failures that are reported to the client, inside a bencoded body.
#[derive(Clone, Copy, Debug, PartialEq, Eq, Structural)]
pub enum ClientError {
    MalformedAnnounce,
    MalformedScrape,
    NotCompact,
    ResourceDoesNotExist,
    UnapprovedClient,
    UnapprovedTorrent,
}

/// Failures that stay inside the tracker and only reach the logs.
#[derive(Clone, Copy, Debug, PartialEq, Eq, Structural)]
pub enum InternalError {
    ConfigFileOpen,
    ConfigFileRead,
    ConfigParse,
    ConfigReload,
    StorageTorrentFetchNew,
    StorageTorrentFlush,
    StorageTorrentLoad,
}

impl ClientError {
    pub open spec fn spec_text(self) -> Seq<char> {
        match self {
            ClientError::MalformedAnnounce => "Malformed announce request"@,
            ClientError::MalformedScrape => "Malformed scrape request"@,
            ClientError::NotCompact => "Announces must be in compact format"@,
            ClientError::ResourceDoesNotExist => "Resource does not exist"@,
            ClientError::UnapprovedClient => "Unapproved client"@,
            ClientError::UnapprovedTorrent => "Unapproved torrent"@,
        }
    }

    pub fn text(&self) -> (r: String)
        ensures
            r@ == self.spec_text(),
    {
        match *self {
            ClientError::MalformedAnnounce => "Malformed announce request".to_owned(),
            ClientError::MalformedScrape => "Malformed scrape request".to_owned(),
            ClientError::NotCompact => "Announces must be in compact format".to_owned(),
            ClientError::ResourceDoesNotExist => "Resource does not exist".to_owned(),
            ClientError::UnapprovedClient => "Unapproved client".to_owned(),
            ClientError::UnapprovedTorrent => "Unapproved torrent".to_owned(),
        }
    }
}

impl InternalError {
    pub open spec fn spec_text(self) -> Seq<char> {
        match self {
            InternalError::ConfigFileOpen => "Could not find config file! Loading default config..."@,
            InternalError::ConfigFileRead => "Could not read config file! Loading default config..."@,
            InternalError::ConfigParse => "Could not parse config file! Loading default config..."@,
            InternalError::ConfigReload => "Could not reload configuration! Keeping old config..."@,
            InternalError::StorageTorrentFetchNew => "Could not fetch new torrents from disk!"@,
            InternalError::StorageTorrentFlush => "Could not flush torrents to disk!"@,
            InternalError::StorageTorrentLoad => "Could not load torrents from disk!"@,
        }
    }

    pub fn text(&self) -> (r: &'static str)
        ensures
            r@ == self.spec_text(),
    {
        match *self {
            InternalError::ConfigFileOpen => "Could not find config file! Loading default config...",
            InternalError::ConfigFileRead => "Could not read config file! Loading default config...",
            InternalError::ConfigParse => "Could not parse config file! Loading default config...",
            InternalError::ConfigReload => "Could not reload configuration! Keeping old config...",
            InternalError::StorageTorrentFetchNew => "Could not fetch new torrents from disk!",
            InternalError::StorageTorrentFlush => "Could not flush torrents to disk!",
            InternalError::StorageTorrentLoad => "Could not load torrents from disk!",
        }
    }
}

} // verus!
