//! The directory server: one node role, parameterized over the content kind
//! it serves. It consumes reassembled requests, dispatches on request kind,
//! queries its content store, and hands the encoded response back to the
//! routing layer addressed to the requester under the requester's session
//! id. Out-of-band control commands (topology edits, administrative
//! queries, shutdown) arrive on a separate path and never touch in-flight
//! reassembly state.

use vstd::prelude::*;
use crate::assembler::{feed_spec, FeedError, Fragment, FragmentAssembler};
use crate::protocol::{
    spec_decode_request, spec_encode_response, spec_response_size_ok, ReqModel, RespModel,
    ServerKind, WebRequest, WebResponse,
};
use crate::routing::{RoutingError, RoutingHandler};
use crate::store::{
    spec_encode_record, spec_find, spec_summaries, ContentRecord, ContentStore, RecModel,
};

verus! {

/// The most incomplete reassembly sessions a node tracks at once.
pub const SESSION_LIMIT: usize = 64;

/// The most payload bytes one outgoing fragment carries.
pub const FRAGMENT_PAYLOAD: usize = 128;

/// An out-of-band control command: topology edits, shutdown, and the
/// administrative content queries that bypass the network path.
pub enum Command {
    AddNeighbor { id: u64, handle: crossbeam::channel::Sender<Fragment> },
    RemoveNeighbor { id: u64 },
    Shutdown,
    ListCachedItems,
    GetItem { id: u128 },
    ListTextItems,
    GetTextItem { id: u128 },
    ListMediaItems,
    GetMediaItem { id: u128 },
}

/// What handling a command yields: whether the node shuts down, and the
/// reply handed straight back to the control collaborator, if any.
pub struct CommandOutcome {
    pub shutdown: bool,
    pub reply: Option<WebResponse>,
}

/// The reply an item lookup earns: the encoded record, an explicit
/// not-found error carrying the identifier, or an explicit format error
/// when the text does not name a UUID.
pub open spec fn spec_item_response(store: Seq<RecModel>, id: Seq<u8>) -> RespModel {
    match crate::ext::uuid_of(id) {
        None => RespModel::ErrorInvalidId,
        Some(u) => match spec_find(store, u) {
            Some(rec) => RespModel::Item { data: spec_encode_record(rec) },
            None => RespModel::ErrorNotFound { id: u },
        },
    }
}

/// The response the protocol assigns to a request, on a node of the given
/// kind with the given store: the kind query is always answered; list and
/// item queries are answered by the node serving their kind and ignored by
/// the other.
pub open spec fn spec_response(kind: ServerKind, store: Seq<RecModel>, req: ReqModel) -> Option<
    RespModel,
> {
    match req {
        ReqModel::ServerTypeQuery => Some(RespModel::ServerType { kind }),
        ReqModel::TextListQuery => if kind == ServerKind::Text {
            Some(RespModel::ItemList { summaries: spec_summaries(store) })
        } else {
            None
        },
        ReqModel::ItemQuery { id } => if kind == ServerKind::Text {
            Some(spec_item_response(store, id))
        } else {
            None
        },
        ReqModel::MediaQuery { id } => if kind == ServerKind::Media {
            Some(spec_item_response(store, id))
        } else {
            None
        },
    }
}

/// The kind query is answered with the configured kind whatever the store
/// holds: the same reply on every store.
pub proof fn lemma_server_type_always_answered(
    kind: ServerKind,
    store1: Seq<RecModel>,
    store2: Seq<RecModel>,
)
    ensures
        spec_response(kind, store1, ReqModel::ServerTypeQuery) == Some(
            RespModel::ServerType { kind },
        ),
        spec_response(kind, store1, ReqModel::ServerTypeQuery) == spec_response(
            kind,
            store2,
            ReqModel::ServerTypeQuery,
        ),
{
}

/// What a received whole message leads to, once decoded.
pub open spec fn spec_reply_of(kind: ServerKind, store: Seq<RecModel>, msg: Seq<u8>) -> Option<
    RespModel,
> {
    match spec_decode_request(msg) {
        Some(req) => spec_response(kind, store, req),
        None => None,
    }
}

/// Why processing an inbound fragment failed.
#[derive(Debug, PartialEq, Eq)]
pub enum ProcessError {
    /// The fragment itself was refused.
    Fragment { err: FeedError },
    /// The reply could not be routed back.
    Routing { err: RoutingError },
}

/// One directory node: its role tag, its content store, its reassembly
/// engine and its routing layer, and whether it has been shut down.
pub struct DirectoryServer {
    pub kind: ServerKind,
    pub store: ContentStore,
    pub assembler: FragmentAssembler,
    pub routing: RoutingHandler,
    pub terminated: bool,
}

impl DirectoryServer {
    /// Every component's invariant.
    pub open spec fn wf(&self) -> bool {
        &&& self.store.wf()
        &&& self.assembler.wf()
        &&& self.routing.wf()
    }

    /// A fresh node of the given kind and peer id: empty store, no tracked
    /// sessions, no neighbors, running.
    pub fn new(id: u64, kind: ServerKind) -> (s: DirectoryServer)
        ensures
            s.wf(),
            s.kind == kind,
            s.store@ == Seq::<RecModel>::empty(),
            s.assembler@ == Seq::<crate::assembler::SessionModel>::empty(),
            s.routing.node_id() == id,
            forall|x: u64| !s.routing.knows(x),
            !s.terminated,
    {
        DirectoryServer {
            kind,
            store: ContentStore::new(),
            assembler: FragmentAssembler::new(SESSION_LIMIT),
            routing: RoutingHandler::new(id, FRAGMENT_PAYLOAD),
            terminated: false,
        }
    }

    /// The reply an item query with this identifier text earns from this
    /// node's store.
    pub fn item_response(&self, id: &Vec<u8>) -> (r: WebResponse)
        requires
            self.wf(),
        ensures
            r@ == spec_item_response(self.store@, id@),
            spec_response_size_ok(r@),
    {
        match crate::ext::parse_uuid(id) {
            None => WebResponse::ErrorInvalidId,
            Some(u) => {
                match self.store.get(u) {
                    Some(rec) => {
                        proof {
                            crate::store::lemma_find_member(self.store@, u);
                        }
                        WebResponse::Item { data: crate::store::encode_record(rec) }
                    },
                    None => WebResponse::ErrorNotFound { id: u },
                }
            },
        }
    }

    /// The response this node gives the request, exactly as the protocol
    /// assigns it; `None` where the request is for the other role.
    pub fn produce_response(&self, req: &WebRequest) -> (r: Option<WebResponse>)
        requires
            self.wf(),
        ensures
            match r {
                Some(resp) => spec_response(self.kind, self.store@, req@) == Some(resp@)
                    && spec_response_size_ok(resp@),
                None => spec_response(self.kind, self.store@, req@) is None,
            },
    {
        match req {
            WebRequest::ServerTypeQuery => Some(WebResponse::ServerType { kind: self.kind }),
            WebRequest::TextListQuery => {
                if self.kind == ServerKind::Text {
                    let summaries = self.store.list_summaries();
                    let r = WebResponse::ItemList { summaries };
                    proof {
                        let ghost ss = summaries@.map_values(|s: Vec<u8>| s@);
                        assert forall|i: int| 0 <= i < ss.len() implies #[trigger] ss[i].len()
                            <= 0xffff_ffff by {
                            assert(ss[i] == summaries@[i]@);
                        }
                    }
                    Some(r)
                } else {
                    None
                }
            },
            WebRequest::ItemQuery { id } => {
                if self.kind == ServerKind::Text {
                    Some(self.item_response(id))
                } else {
                    None
                }
            },
            WebRequest::MediaQuery { id } => {
                if self.kind == ServerKind::Media {
                    Some(self.item_response(id))
                } else {
                    None
                }
            },
        }
    }

    /// Handles one reassembled message: decodes it, produces the response
    /// the protocol assigns, and sends it back addressed to the requester
    /// under the requester's own session id. A message that decodes to no
    /// request, or asks for the other role, is ignored. Routing failures —
    /// an unknown requester, a reply too long to fragment, a reply channel
    /// with no room or disconnected — are reported to the caller, never
    /// swallowed.
    pub fn handle_msg(&self, msg: &Vec<u8>, from: u64, session_id: u64) -> (r: Result<
        (),
        RoutingError,
    >)
        requires
            self.wf(),
        ensures
            spec_reply_of(self.kind, self.store@, msg@) is None ==> r == Ok::<(), RoutingError>(
                (),
            ),
            spec_reply_of(self.kind, self.store@, msg@) is Some ==> (!self.routing.knows(from)
                <==> r == Err::<(), RoutingError>(RoutingError::UnknownDestination { dest: from })),
            spec_reply_of(self.kind, self.store@, msg@) matches Some(reply) ==> (r == Err::<(
            ), RoutingError>(RoutingError::PayloadTooLarge) <==> (self.routing.knows(from)
                && spec_encode_response(reply).len() > 0xffff_fffe)),
            (spec_reply_of(self.kind, self.store@, msg@) matches Some(reply)
                && self.routing.knows(from) && spec_encode_response(reply).len() <= 0xffff_fffe)
                ==> (r == Ok::<(), RoutingError>(()) || r == Err::<(), RoutingError>(
                RoutingError::ChannelClosed { dest: from },
            ) || r == Err::<(), RoutingError>(RoutingError::ChannelFull { dest: from })),
    {
        let req = match crate::protocol::decode_request(msg) {
            Some(req) => req,
            None => {
                return Ok(());
            },
        };
        let resp = match self.produce_response(&req) {
            Some(resp) => resp,
            None => {
                return Ok(());
            },
        };
        let bytes = crate::protocol::encode_response(&resp);
        self.routing.send(&bytes, from, session_id)
    }

    /// Feeds one inbound fragment into the reassembly engine; when it
    /// completes a message, dispatches that message and routes the reply
    /// back to the fragment's origin under the fragment's session id. The
    /// store, the neighbor table and the role tag are untouched.
    pub fn process_packet(&mut self, f: Fragment) -> (r: Result<(), ProcessError>)
        requires
            old(self).wf(),
        ensures
            final(self).wf(),
            final(self).assembler@ == feed_spec(
                old(self).assembler@,
                old(self).assembler.cap(),
                f@,
            ).sessions,
            final(self).store@ == old(self).store@,
            final(self).kind == old(self).kind,
            final(self).routing == old(self).routing,
            final(self).terminated == old(self).terminated,
            ({
                let o = feed_spec(old(self).assembler@, old(self).assembler.cap(), f@);
                &&& (o.err is Some ==> r == Err::<(), ProcessError>(
                    ProcessError::Fragment { err: o.err->Some_0 },
                ))
                &&& (o.err is None && o.output is None ==> r == Ok::<(), ProcessError>(()))
                &&& ((o.err is None && o.output is Some && spec_reply_of(
                    old(self).kind,
                    old(self).store@,
                    o.output->Some_0,
                ) is None) ==> r == Ok::<(), ProcessError>(()))
                &&& ((o.err is None && o.output is Some) ==> (spec_reply_of(
                    old(self).kind,
                    old(self).store@,
                    o.output->Some_0,
                ) is Some ==> (!old(self).routing.knows(f@.origin) <==> r == Err::<(
                ), ProcessError>(ProcessError::Routing {
                    err: RoutingError::UnknownDestination { dest: f@.origin },
                }))))
                &&& ((o.err is None && o.output is Some && spec_reply_of(
                    old(self).kind,
                    old(self).store@,
                    o.output->Some_0,
                ) is Some) ==> (r == Err::<(), ProcessError>(ProcessError::Routing {
                    err: RoutingError::PayloadTooLarge,
                }) <==> (old(self).routing.knows(f@.origin) && spec_encode_response(
                    spec_reply_of(old(self).kind, old(self).store@, o.output->Some_0)->Some_0,
                ).len() > 0xffff_fffe)))
                &&& ((o.err is None && o.output is Some && spec_reply_of(
                    old(self).kind,
                    old(self).store@,
                    o.output->Some_0,
                ) is Some && old(self).routing.knows(f@.origin) && spec_encode_response(
                    spec_reply_of(old(self).kind, old(self).store@, o.output->Some_0)->Some_0,
                ).len() <= 0xffff_fffe) ==> (r == Ok::<(), ProcessError>(()) || r == Err::<(
                ), ProcessError>(ProcessError::Routing {
                    err: RoutingError::ChannelClosed { dest: f@.origin },
                }) || r == Err::<(), ProcessError>(ProcessError::Routing {
                    err: RoutingError::ChannelFull { dest: f@.origin },
                })))
            }),
    {
        let origin = f.origin;
        let session_id = f.session_id;
        let fed = self.assembler.feed(f);
        match fed {
            Err(e) => Err(ProcessError::Fragment { err: e }),
            Ok(None) => Ok(()),
            Ok(Some(msg)) => {
                match self.handle_msg(&msg, origin, session_id) {
                    Ok(()) => Ok(()),
                    Err(e) => Err(ProcessError::Routing { err: e }),
                }
            },
        }
    }

    /// Handles one control command. Topology edits touch only the neighbor
    /// table, shutdown only the termination flag, and the administrative
    /// queries only read the store: in-flight reassembly state is never
    /// touched, whatever the command.
    pub fn handle_command(&mut self, cmd: Command) -> (out: CommandOutcome)
        requires
            old(self).wf(),
        ensures
            final(self).wf(),
            final(self).kind == old(self).kind,
            final(self).store@ == old(self).store@,
            final(self).assembler == old(self).assembler,
            final(self).routing.node_id() == old(self).routing.node_id(),
            final(self).routing.frag_size() == old(self).routing.frag_size(),
            out.shutdown == (cmd matches Command::Shutdown),
            final(self).terminated == (old(self).terminated || cmd matches Command::Shutdown),
            match cmd {
                Command::AddNeighbor { id, handle } => final(self).routing.spec_handle(id)
                    == Some(handle) && (forall|x: u64|
                    x != id ==> final(self).routing.spec_handle(x) == old(
                        self,
                    ).routing.spec_handle(x)) && out.reply is None,
                Command::RemoveNeighbor { id } => final(self).routing.spec_handle(id) is None && (
                forall|x: u64|
                    x != id ==> final(self).routing.spec_handle(x) == old(
                        self,
                    ).routing.spec_handle(x)) && out.reply is None,
                Command::Shutdown => final(self).routing == old(self).routing && out.reply is None,
                Command::ListCachedItems => *final(self) == *old(self) && (out.reply matches Some(
                    resp,
                ) && resp@ == RespModel::ItemList { summaries: spec_summaries(old(self).store@) }),
                Command::GetItem { id } => *final(self) == *old(self) && (out.reply matches Some(resp)
                    && resp@ == spec_lookup_response(old(self).store@, id)),
                Command::ListTextItems => *final(self) == *old(self) && (if old(self).kind
                    == ServerKind::Text {
                    out.reply matches Some(resp) && resp@ == RespModel::ItemList {
                        summaries: spec_summaries(old(self).store@),
                    }
                } else {
                    out.reply is None
                }),
                Command::GetTextItem { id } => *final(self) == *old(self) && (if old(self).kind
                    == ServerKind::Text {
                    out.reply matches Some(resp) && resp@ == spec_lookup_response(
                        old(self).store@,
                        id,
                    )
                } else {
                    out.reply is None
                }),
                Command::ListMediaItems => *final(self) == *old(self) && (if old(self).kind
                    == ServerKind::Media {
                    out.reply matches Some(resp) && resp@ == RespModel::ItemList {
                        summaries: spec_summaries(old(self).store@),
                    }
                } else {
                    out.reply is None
                }),
                Command::GetMediaItem { id } => *final(self) == *old(self) && (if old(self).kind
                    == ServerKind::Media {
                    out.reply matches Some(resp) && resp@ == spec_lookup_response(
                        old(self).store@,
                        id,
                    )
                } else {
                    out.reply is None
                }),
            },
    {
        match cmd {
            Command::AddNeighbor { id, handle } => {
                self.routing.add_neighbor(id, handle);
                CommandOutcome { shutdown: false, reply: None }
            },
            Command::RemoveNeighbor { id } => {
                self.routing.remove_neighbor(id);
                CommandOutcome { shutdown: false, reply: None }
            },
            Command::Shutdown => {
                self.terminated = true;
                CommandOutcome { shutdown: true, reply: None }
            },
            Command::ListCachedItems => CommandOutcome {
                shutdown: false,
                reply: Some(self.list_reply()),
            },
            Command::GetItem { id } => CommandOutcome {
                shutdown: false,
                reply: Some(self.lookup_reply(id)),
            },
            Command::ListTextItems => {
                if self.kind == ServerKind::Text {
                    CommandOutcome { shutdown: false, reply: Some(self.list_reply()) }
                } else {
                    CommandOutcome { shutdown: false, reply: None }
                }
            },
            Command::GetTextItem { id } => {
                if self.kind == ServerKind::Text {
                    CommandOutcome { shutdown: false, reply: Some(self.lookup_reply(id)) }
                } else {
                    CommandOutcome { shutdown: false, reply: None }
                }
            },
            Command::ListMediaItems => {
                if self.kind == ServerKind::Media {
                    CommandOutcome { shutdown: false, reply: Some(self.list_reply()) }
                } else {
                    CommandOutcome { shutdown: false, reply: None }
                }
            },
            Command::GetMediaItem { id } => {
                if self.kind == ServerKind::Media {
                    CommandOutcome { shutdown: false, reply: Some(self.lookup_reply(id)) }
                } else {
                    CommandOutcome { shutdown: false, reply: None }
                }
            },
        }
    }

    /// The listing reply of the local store.
    fn list_reply(&self) -> (r: WebResponse)
        requires
            self.wf(),
        ensures
            r@ == (RespModel::ItemList { summaries: spec_summaries(self.store@) }),
    {
        WebResponse::ItemList { summaries: self.store.list_summaries() }
    }

    /// The lookup reply of the local store for an already-parsed identifier.
    fn lookup_reply(&self, id: u128) -> (r: WebResponse)
        requires
            self.wf(),
        ensures
            r@ == spec_lookup_response(self.store@, id),
    {
        match self.store.get(id) {
            Some(rec) => {
                proof {
                    crate::store::lemma_find_member(self.store@, id);
                }
                WebResponse::Item { data: crate::store::encode_record(rec) }
            },
            None => WebResponse::ErrorNotFound { id },
        }
    }
}

/// The reply an administrative lookup of an already-parsed identifier
/// earns.
pub open spec fn spec_lookup_response(store: Seq<RecModel>, id: u128) -> RespModel {
    match spec_find(store, id) {
        Some(rec) => RespModel::Item { data: spec_encode_record(rec) },
        None => RespModel::ErrorNotFound { id },
    }
}

/// The media node role: a directory server serving media records.
pub struct MediaServer {
    pub server: DirectoryServer,
}

impl MediaServer {
    /// A fresh media node: empty store, no tracked sessions, no neighbors,
    /// running.
    pub fn new(id: u64) -> (s: MediaServer)
        ensures
            s.server.wf(),
            s.server.kind == ServerKind::Media,
            s.server.store@ == Seq::<RecModel>::empty(),
            s.server.assembler@ == Seq::<crate::assembler::SessionModel>::empty(),
            s.server.routing.node_id() == id,
            forall|x: u64| !s.server.routing.knows(x),
            !s.server.terminated,
    {
        MediaServer { server: DirectoryServer::new(id, ServerKind::Media) }
    }

    /// Adds a media record; one whose identifier the store already holds is
    /// refused and nothing changes.
    pub fn add_media_file(&mut self, media_file: ContentRecord) -> (added: bool)
        requires
            old(self).server.wf(),
            old(self).server.store@.len() < 0xffff_fffe,
            media_file@.title.len() <= 0xffff_0000,
        ensures
            final(self).server.wf(),
            added == (spec_find(old(self).server.store@, media_file@.id) is None),
            added ==> final(self).server.store@ == old(self).server.store@.push(media_file@),
            !added ==> final(self).server.store@ == old(self).server.store@,
            final(self).server.kind == old(self).server.kind,
            final(self).server.assembler == old(self).server.assembler,
            final(self).server.routing == old(self).server.routing,
    {
        self.server.store.insert(media_file)
    }

    /// Takes the media record under `id` out and hands it back.
    pub fn remove_media_file(&mut self, media_id: u128) -> (r: Option<ContentRecord>)
        requires
            old(self).server.wf(),
        ensures
            final(self).server.wf(),
            final(self).server.store@ == crate::store::spec_remove_id(
                old(self).server.store@,
                media_id,
            ),
            match r {
                Some(rec) => spec_find(old(self).server.store@, media_id) == Some(rec@),
                None => spec_find(old(self).server.store@, media_id) is None,
            },
            final(self).server.kind == old(self).server.kind,
            final(self).server.assembler == old(self).server.assembler,
            final(self).server.routing == old(self).server.routing,
    {
        self.server.store.remove(media_id)
    }

    /// The listing lines of the media store.
    pub fn get_media_list(&self) -> (out: Vec<Vec<u8>>)
        requires
            self.server.wf(),
        ensures
            out@.map_values(|s: Vec<u8>| s@) == spec_summaries(self.server.store@),
    {
        self.server.store.list_summaries()
    }
}

/// The text node role: a directory server serving text records.
pub struct TextServer {
    pub server: DirectoryServer,
}

impl TextServer {
    /// A fresh text node: empty store, no tracked sessions, no neighbors,
    /// running.
    pub fn new(id: u64) -> (s: TextServer)
        ensures
            s.server.wf(),
            s.server.kind == ServerKind::Text,
            s.server.store@ == Seq::<RecModel>::empty(),
            s.server.assembler@ == Seq::<crate::assembler::SessionModel>::empty(),
            s.server.routing.node_id() == id,
            forall|x: u64| !s.server.routing.knows(x),
            !s.server.terminated,
    {
        TextServer { server: DirectoryServer::new(id, ServerKind::Text) }
    }

    /// Adds a text record; one whose identifier the store already holds is
    /// refused and nothing changes.
    pub fn add_text_file(&mut self, file: ContentRecord) -> (added: bool)
        requires
            old(self).server.wf(),
            old(self).server.store@.len() < 0xffff_fffe,
            file@.title.len() <= 0xffff_0000,
        ensures
            final(self).server.wf(),
            added == (spec_find(old(self).server.store@, file@.id) is None),
            added ==> final(self).server.store@ == old(self).server.store@.push(file@),
            !added ==> final(self).server.store@ == old(self).server.store@,
    {
        self.server.store.insert(file)
    }

    /// The record under `file_id`, when the store holds one.
    pub fn get_file_by_id(&self, file_id: u128) -> (r: Option<&ContentRecord>)
        ensures
            match r {
                Some(rec) => spec_find(self.server.store@, file_id) == Some(rec@),
                None => spec_find(self.server.store@, file_id) is None,
            },
    {
        self.server.store.get(file_id)
    }

    /// The listing lines of the text store: `id:title`, one per record.
    pub fn get_files_list(&self) -> (out: Vec<Vec<u8>>)
        requires
            self.server.wf(),
        ensures
            out@.map_values(|s: Vec<u8>| s@) == spec_summaries(self.server.store@),
    {
        self.server.store.list_summaries()
    }
}

} // verus!
