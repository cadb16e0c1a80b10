//! The configuration a request is served under, as plain values.

use vstd::prelude::*;

use crate::cache_index::StaleWhen;
use crate::fcache::OpenFileCache;
use crate::http::Header;

verus! {

/// A variable.
#[derive(Debug, Clone)]
pub enum Var {
    Uri,
    DocumentUri,
    RequestUri,
    Args,
    IsArgs,
    Arg(Vec<u8>),
    Host,
    Hostname,
    Scheme,
    RequestMethod,
    Request,
    ServerProtocol,
    ServerName,
    ServerPort,
    ServerAddr,
    RemoteAddr,
    BinaryRemoteAddr,
    RemotePort,
    RemoteUser,
    RequestLength,
    RequestTime,
    Msec,
    TimeLocal,
    TimeIso8601,
    DocumentRoot,
    RequestFilename,
    ContentType,
    ContentLength,
    Connection,
    ConnectionRequests,
    Pid,
    NginxVersion,
    Http(Vec<u8>),
    Cookie(Vec<u8>),
    Capture(u8),
    FastcgiScriptName,
    FastcgiPathInfo,
    Https,
    ProxyHost,
    ProxyPort,
    ProxyAddXForwardedFor,
    UpstreamAddr,
    UpstreamStatus,
    UpstreamResponseTime,
    UpstreamConnectTime,
    UpstreamCacheStatus,
    UpstreamHttp(Vec<u8>),
    SslPrereadServerName,
    SslPrereadProtocol,
    SslPrereadAlpnProtocols,
    User(Vec<u8>),
    Status,
    BodyBytesSent,
    BytesSent,
    SentHttp(Vec<u8>),
}

/// One part of a template.
#[derive(Debug, Clone)]
pub enum Part {
    Literal(Vec<u8>),
    Variable(Var),
}

/// Text with variables in it.
#[derive(Debug, Clone)]
pub struct Template {
    pub parts: Vec<Part>,
}

/// A value of a `map` for one exact key.
#[derive(Debug, Clone)]
pub struct ExactEntry {
    pub key: Vec<u8>,
    pub value: Template,
}

/// A value of a `map` for host names that end (`leading`) or start with a
/// pattern, the dot left out.
#[derive(Debug, Clone)]
pub struct WildcardEntry {
    pub pattern: Vec<u8>,
    pub value: Template,
    pub leading: bool,
}

/// A value of a `map` for what a regular expression matches.
#[derive(Debug, Clone)]
pub struct RegexEntry {
    pub pattern: String,
    pub value: Template,
}

/// A `map` block.
#[derive(Debug, Clone)]
pub struct MapConf {
    pub target: Vec<u8>,
    pub source: Var,
    pub hostnames: bool,
    pub exact: Vec<ExactEntry>,
    pub wildcards: Vec<WildcardEntry>,
    pub regexes: Vec<RegexEntry>,
    pub fallback: Option<Template>,
}

/// A name of a server.
#[derive(Debug, Clone)]
pub enum ServerName {
    Exact(Vec<u8>),
    LeadingWildcard(Vec<u8>),
    TrailingWildcard(Vec<u8>),
    Regex(String),
}

/// An `add_header` directive.
#[derive(Debug, Clone)]
pub struct AddHeader {
    pub name: Vec<u8>,
    pub value: Template,
    pub always: bool,
}

/// An `expires` directive.
#[derive(Debug, Clone, Copy, PartialEq, Eq, Structural)]
pub enum Expires {
    Off,
    Epoch,
    Max,
    Secs(i64),
    Daily(u32),
}

/// The `gzip` directives.
#[derive(Debug, Clone)]
pub struct Gzip {
    pub enabled: bool,
    pub http_version_1_0: bool,
    pub types: Vec<Vec<u8>>,
    pub min_length: u64,
    pub level: u32,
    pub vary: bool,
}

/// A variable assigned by `set` or `auth_request_set`.
#[derive(Debug, Clone)]
pub struct SetDirective {
    pub name: Vec<u8>,
    pub value: Template,
}

/// How `If-Modified-Since` is compared.
#[derive(Debug, Clone, Copy, PartialEq, Eq, Structural)]
pub enum IfModifiedSince {
    Off,
    Exact,
    Before,
}

/// What `http`, `server` and `location` blocks have in common.
#[derive(Debug, Clone)]
pub struct CoreConf {
    pub root: Template,
    pub alias: Option<Template>,
    pub internal: bool,
    pub add_headers: Vec<AddHeader>,
    pub expires: Option<Expires>,
    pub gzip: Gzip,
    pub limit_req_status: u16,
    pub limit_conn_status: u16,
    pub limit_conn_dry_run: bool,
    pub auth_request: Option<Vec<u8>>,
    pub auth_request_set: Vec<SetDirective>,
    pub index: Vec<Template>,
    pub autoindex: bool,
    pub absolute_redirect: bool,
    pub port_in_redirect: bool,
    pub etag: bool,
    pub if_modified_since: IfModifiedSince,
    pub max_ranges: Option<u64>,
    pub sendfile: bool,
    pub default_type: Vec<u8>,
    pub charset: Option<Vec<u8>>,
    pub open_file_cache: OpenFileCache,
    /// The page of a redirect of status 301, signed as `server_tokens` says here.
    pub moved_page: Vec<u8>,
}

/// Where an `error_page` leads.
#[derive(Debug, Clone)]
pub enum ErrorTarget {
    Uri(Template),
    Named(Vec<u8>),
    Redirect(Template),
}

/// An `error_page` directive. The status it replaces the code with is absent for
/// `error_page 404 /x`, 0 for `error_page 404 = /x`.
#[derive(Debug, Clone)]
pub struct ErrorPage {
    pub codes: Vec<u16>,
    pub replace_status: Option<u16>,
    pub target: ErrorTarget,
}

/// What a rewrite does once it matched.
#[derive(Debug, Clone, Copy, PartialEq, Eq, Structural)]
pub enum RewriteFlag {
    Last,
    Break,
    Redirect,
    Permanent,
    Plain,
}

/// A `rewrite` directive.
#[derive(Debug, Clone)]
pub struct Rewrite {
    pub pattern: String,
    pub replacement: Template,
    pub flag: RewriteFlag,
}

/// The condition of an `if`.
#[derive(Debug, Clone)]
pub enum Cond {
    Always,
    Truthy(Var),
    Eq(Var, Template),
    Ne(Var, Template),
    Match { var: Var, pattern: String, negate: bool },
    FileExists { path: Template, negate: bool },
    DirExists { path: Template, negate: bool },
    AnyExists { path: Template, negate: bool },
    Executable { path: Template, negate: bool },
}

/// What an `if` block does.
#[derive(Debug, Clone)]
pub enum IfAction {
    Return { status: u16, body: Option<Template> },
    Assign(SetDirective),
    Rewrite(Rewrite),
    AddHeader(AddHeader),
    Break,
}

/// An `if` block.
#[derive(Debug, Clone)]
pub struct IfBlock {
    pub cond: Cond,
    pub actions: Vec<IfAction>,
}

/// The last argument of `try_files`.
#[derive(Debug, Clone)]
pub enum TryFallback {
    Status(u16),
    Named(Vec<u8>),
    Uri(Template),
}

/// A `try_files` directive.
#[derive(Debug, Clone)]
pub struct TryFiles {
    pub items: Vec<Template>,
    pub fallback: TryFallback,
}

/// Where requests are passed on to.
#[derive(Debug, Clone)]
pub enum ProxyTarget {
    Addr { host: Vec<u8>, port: u16 },
    Unix(Vec<u8>),
    Upstream(Vec<u8>),
    /// An address, or the name of an upstream, that variables make up.
    Dynamic(Template),
}

/// A `proxy_pass` directive.
#[derive(Debug, Clone)]
pub struct ProxyPass {
    pub target: ProxyTarget,
    pub tls: bool,
    pub uri: Option<Template>,
}

/// The directives that shape what is passed on.
#[derive(Debug, Clone)]
pub struct ProxyConf {
    pub http_version_11: bool,
    pub set_headers: Vec<SetDirective>,
    /// Names in lower case.
    pub hide_headers: Vec<Vec<u8>>,
}

/// A `fastcgi_param` directive.
#[derive(Debug, Clone)]
pub struct FastCgiParam {
    pub name: Vec<u8>,
    pub value: Template,
    pub if_not_empty: bool,
}

/// The `fastcgi` directives.
#[derive(Debug, Clone)]
pub struct FastCgiConf {
    pub keep_conn: bool,
    pub split_path_info: Option<String>,
    pub index: Option<Vec<u8>>,
    pub params: Vec<FastCgiParam>,
    /// Names in lower case.
    pub hide_headers: Vec<Vec<u8>>,
    pub buffering: bool,
    /// How much of a body is held before the rest is streamed.
    pub buffer_budget: usize,
}

/// A `proxy_cache_valid` directive; one without codes is for all of them.
#[derive(Debug, Clone)]
pub struct CacheValid {
    pub codes: Vec<u16>,
    pub ttl: u64,
}

/// The `proxy_cache` directives.
#[derive(Debug, Clone)]
pub struct ProxyCacheConf {
    pub methods: Vec<Vec<u8>>,
    pub key: Template,
    pub bypass: Vec<Template>,
    pub no_cache: Vec<Template>,
    pub min_uses: u32,
    pub valid: Vec<CacheValid>,
    pub lock: bool,
    pub lock_timeout_ms: u64,
    pub use_stale: Vec<StaleWhen>,
}

/// What a location does with a request.
#[derive(Debug, Clone)]
pub enum Action {
    Nothing,
    Static,
    Return { status: u16, body: Option<Template> },
    Proxy,
    FastCgi,
}

/// A `location` block.
#[derive(Debug, Clone)]
pub struct Location {
    /// The path it matches as such; absent where it matches by a pattern or has a
    /// name.
    pub prefix: Option<Vec<u8>>,
    pub core: CoreConf,
    pub error_pages: Vec<ErrorPage>,
    pub allowed_methods: Option<Vec<Vec<u8>>>,
    pub rewrites: Vec<Rewrite>,
    pub ifs: Vec<IfBlock>,
    pub try_files: Option<TryFiles>,
    pub action: Action,
}

/// The page sent for a status when nothing else is configured.
#[derive(Debug, Clone)]
pub struct DefaultPage {
    pub code: u16,
    pub body: Vec<u8>,
}

/// A `server` block.
#[derive(Debug, Clone)]
pub struct ServerConf {
    pub names: Vec<ServerName>,
    pub core: CoreConf,
    pub error_pages: Vec<ErrorPage>,
    pub alt_svc: Option<Vec<u8>>,
    pub rewrites: Vec<Rewrite>,
    pub ifs: Vec<IfBlock>,
    pub locations: Vec<Location>,
    pub default_pages: Vec<DefaultPage>,
    pub action: Action,
}

/// The address of a peer. An IPv6 address comes as its text and its octets.
#[derive(Debug, Clone)]
pub enum Addr {
    V4 { a: u8, b: u8, c: u8, d: u8, port: u16 },
    V6 { text: Vec<u8>, octets: Vec<u8>, port: u16 },
}

/// Where a socket listens. A network address comes as its text.
#[derive(Debug, Clone)]
pub enum ListenAddr {
    Tcp(Vec<u8>),
    Unix(Vec<u8>),
}

/// A parsed request.
#[derive(Debug, Clone)]
pub struct Req {
    pub method: Vec<u8>,
    pub target: Vec<u8>,
    pub minor: u8,
    pub headers: Vec<Header>,
    /// The host asked for, without its port; empty if none was given.
    pub host: Vec<u8>,
    pub head_len: u64,
    pub accepts_gzip: bool,
}

/// The clock and the machine, as one request sees them.
#[derive(Debug, Clone)]
pub struct Clock {
    /// Microseconds since the request began.
    pub elapsed_us: u64,
    /// Microseconds since the epoch.
    pub now_us: u64,
    pub time_local: Vec<u8>,
    pub time_iso8601: Vec<u8>,
    pub hostname: Vec<u8>,
    pub pid: u64,
    pub version: Vec<u8>,
}

/// What does not change while a request is served.
#[derive(Debug, Clone)]
pub struct Env {
    pub req: Req,
    pub body: Vec<u8>,
    pub maps: Vec<MapConf>,
    pub server: ServerConf,
    /// Absent for a client on a Unix socket, which has no address at all.
    pub remote: Option<Addr>,
    pub local: Option<Addr>,
    pub scheme: Vec<u8>,
    pub conn_id: u64,
    pub conn_requests: u64,
}

} // verus!
