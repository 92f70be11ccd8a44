//! A small service model — configuration, a server, request handlers and
//! a generic container — used by the test suite as a concrete subject for
//! the analysis.

use vstd::prelude::*;
use vstd::pervasive::unreached;
use vstd::string::StringExecFns;
use crate::utils::{dec_str, push_char, push_decimal};

verus! {

/// True when some option's key reads `key`.
pub open spec fn has_option_key(opts: Seq<(String, String)>, key: Seq<char>) -> bool {
    exists|i: int| 0 <= i < opts.len() && (#[trigger] opts[i]).0@ == key
}

/// True when `post` is `pre` with the first entry keyed `key` given the
/// value `value`, everything else unchanged.
pub open spec fn option_replaced(
    pre: Seq<(String, String)>,
    key: Seq<char>,
    value: Seq<char>,
    post: Seq<(String, String)>,
) -> bool {
    exists|i: int|
        #![auto]
        0 <= i < pre.len() && pre[i].0@ == key
        && (forall|j: int| 0 <= j < i ==> pre[j].0@ != key)
        && post.len() == pre.len()
        && post[i].0@ == key && post[i].1@ == value
        && (forall|j: int| 0 <= j < pre.len() && j != i ==> post[j] == pre[j])
}

/// Configuration for the sample service.
#[derive(Debug, Clone)]
pub struct Config {
    pub host: String,
    pub port: u16,
    pub log_level: String,
    pub options: Vec<(String, String)>,
}

impl Config {
    /// The option keys are pairwise distinct, as a keyed map demands.
    pub open spec fn options_wf(&self) -> bool {
        forall|i: int, j: int| 0 <= i < j < self.options@.len()
            ==> (#[trigger] self.options@[i]).0@ != (#[trigger] self.options@[j]).0@
    }

    /// A fresh configuration with no extra options.
    pub fn new(host: &str, port: u16, log_level: &str) -> (r: Config)
        ensures
            r.host@ == host@,
            r.port == port,
            r.log_level@ == log_level@,
            r.options@.len() == 0,
            r.options_wf(),
    {
        Config {
            host: host.to_owned(),
            port,
            log_level: log_level.to_owned(),
            options: Vec::new(),
        }
    }

    /// A configuration is valid when the host is nonempty and the port is
    /// nonzero.
    pub fn validate(&self) -> (r: bool)
        ensures
            r == (self.host@.len() > 0 && self.port != 0),
    {
        if self.host.as_str().is_empty() {
            return false;
        }
        if self.port == 0 {
            return false;
        }
        true
    }

    /// Sets one option, builder style: an existing entry for the key has
    /// its value overwritten; otherwise the pair is appended.
    pub fn with_option(self, key: &str, value: &str) -> (r: Config)
        ensures
            r.host@ == self.host@,
            r.port == self.port,
            r.log_level@ == self.log_level@,
            has_option_key(self.options@, key@)
                ==> option_replaced(self.options@, key@, value@, r.options@),
            !has_option_key(self.options@, key@)
                ==> r.options@.len() == self.options@.len() + 1
                    && (forall|i: int| 0 <= i < self.options@.len()
                        ==> r.options@[i] == self.options@[i])
                    && r.options@.last().0@ == key@ && r.options@.last().1@ == value@,
            self.options_wf() ==> r.options_wf(),
    {
        let mut c = self;
        let k = key.to_owned();
        let n = c.options.len();
        let mut i: usize = 0;
        while i < n
            invariant
                n == c.options@.len(),
                0 <= i <= n,
                c.options@ == self.options@,
                c.host@ == self.host@,
                c.port == self.port,
                c.log_level@ == self.log_level@,
                k@ == key@,
                forall|j: int| 0 <= j < i ==> (#[trigger] self.options@[j]).0@ != key@,
            decreases n - i,
        {
            if c.options[i].0 == k {
                let entry = c.options.remove(i);
                c.options.insert(i, (entry.0, value.to_owned()));
                proof {
                    assert(c.options@ =~= self.options@.update(
                        i as int,
                        (self.options@[i as int].0, c.options@[i as int].1),
                    ));
                    assert(has_option_key(self.options@, key@));
                    assert(option_replaced(self.options@, key@, value@, c.options@));
                    if self.options_wf() {
                        assert forall|a: int, b: int| 0 <= a < b < c.options@.len()
                            implies (#[trigger] c.options@[a]).0@
                                != (#[trigger] c.options@[b]).0@ by {
                            assert(c.options@[a].0@ == self.options@[a].0@);
                            assert(c.options@[b].0@ == self.options@[b].0@);
                        }
                    }
                }
                return c;
            }
            i += 1;
        }
        proof {
            if has_option_key(self.options@, key@) {
                let w = choose|w: int| 0 <= w < self.options@.len()
                    && (#[trigger] self.options@[w]).0@ == key@;
                assert(false);
            }
        }
        c.options.push((k, value.to_owned()));
        proof {
            if self.options_wf() {
                assert forall|a: int, b: int| 0 <= a < b < c.options@.len()
                    implies (#[trigger] c.options@[a]).0@
                        != (#[trigger] c.options@[b]).0@ by {
                    if b < c.options@.len() - 1 {
                        assert(c.options@[a] == self.options@[a]);
                        assert(c.options@[b] == self.options@[b]);
                    } else {
                        assert(c.options@[a] == self.options@[a]);
                        assert(c.options@[b].0@ == key@);
                    }
                }
            }
        }
        c
    }
}

impl Default for Config {
    /// The local default: localhost, port 8080, info-level logging.
    fn default() -> (r: Config)
        ensures
            r.host@ == "localhost"@,
            r.port == 8080,
            r.log_level@ == "info"@,
            r.options@.len() == 0,
            r.options_wf(),
    {
        Config::new("localhost", 8080, "info")
    }
}

/// A logger with a fixed prefix and verbosity level.
pub struct Logger {
    prefix: String,
    level: u8,
}

impl Logger {
    /// The logger's prefix.
    pub closed spec fn spec_prefix(&self) -> Seq<char> {
        self.prefix@
    }

    /// The logger's verbosity level.
    pub closed spec fn spec_level(&self) -> u8 {
        self.level
    }

    pub fn new(prefix: &str) -> (r: Logger)
        ensures
            r.spec_prefix() == prefix@,
            r.spec_level() == 1,
    {
        Logger { prefix: prefix.to_owned(), level: 1 }
    }

    /// The formatted info line; the caller does the printing.
    pub fn info_message(&self, message: &str) -> (r: String)
        ensures
            r@ == "[INFO] "@ + self.spec_prefix() + ": "@ + message@,
    {
        let mut line = String::new();
        line.append("[INFO] ");
        line.append(self.prefix.as_str());
        line.append(": ");
        line.append(message);
        line
    }

    /// The formatted debug line, produced only at verbosity two or
    /// higher; the caller does the printing.
    pub fn debug_message(&self, message: &str) -> (r: Option<String>)
        ensures
            r is Some <==> self.spec_level() >= 2,
            r matches Some(line)
                ==> line@ == "[DEBUG] "@ + self.spec_prefix() + ": "@ + message@,
    {
        if self.level >= 2 {
            let mut line = String::new();
            line.append("[DEBUG] ");
            line.append(self.prefix.as_str());
            line.append(": ");
            line.append(message);
            Some(line)
        } else {
            None
        }
    }

    /// The formatted error line; the caller does the printing.
    pub fn error_message(&self, message: &str) -> (r: String)
        ensures
            r@ == "[ERROR] "@ + self.spec_prefix() + ": "@ + message@,
    {
        let mut line = String::new();
        line.append("[ERROR] ");
        line.append(self.prefix.as_str());
        line.append(": ");
        line.append(message);
        line
    }
}

/// The sample server: holds its configuration and run state.
pub struct Server {
    config: Config,
    running: bool,
    logger: Logger,
}

impl Server {
    /// Whether the server believes it is running.
    pub closed spec fn spec_running(&self) -> bool {
        self.running
    }

    /// The configuration the server was built with.
    pub closed spec fn spec_config(&self) -> Config {
        self.config
    }

    /// The server's logger.
    pub closed spec fn spec_logger(&self) -> Logger {
        self.logger
    }

    /// A stopped server over the given configuration.
    pub fn new(config: Config) -> (r: Server)
        ensures
            !r.spec_running(),
            r.spec_config() == config,
            r.spec_logger().spec_prefix() == "server"@,
            r.spec_logger().spec_level() == 1,
    {
        Server { config, running: false, logger: Logger::new("server") }
    }

    /// Begins listening; the run state is untouched (the caller observes
    /// it through `is_running`).
    pub fn start(&self) {
        self.listen();
    }

    /// The start-up announcement, naming the host and port; the caller
    /// hands it to its log output.
    pub fn start_message(&self) -> (r: String)
        ensures
            r@ == "Starting server on "@ + self.spec_config().host@ + ":"@
                + dec_str(self.spec_config().port as nat),
    {
        let mut msg = String::new();
        msg.append("Starting server on ");
        msg.append(self.config.host.as_str());
        push_char(&mut msg, ':');
        let port = self.config.port;
        push_decimal(port as usize, &mut msg);
        proof {
            reveal_strlit(":");
            assert(":"@ =~= Seq::<char>::empty().push(':'));
            assert(msg@ =~= "Starting server on "@ + self.spec_config().host@ + ":"@
                + dec_str(self.spec_config().port as nat));
        }
        msg
    }

    /// Stops the server; only the run state changes.
    pub fn stop(&mut self)
        ensures
            !final(self).spec_running(),
            final(self).spec_config() == old(self).spec_config(),
            final(self).spec_logger() == old(self).spec_logger(),
    {
        self.running = false;
    }

    /// Whether the server is running.
    pub fn is_running(&self) -> (r: bool)
        ensures
            r == self.spec_running(),
    {
        self.running
    }

    /// Accepts connections; a placeholder in the sample service.
    fn listen(&self) {
    }
}

/// An incoming request.
pub struct Request {
    pub method: String,
    pub path: String,
    pub body: Vec<u8>,
}

/// An outgoing response.
pub struct Response {
    pub status: u16,
    pub body: Vec<u8>,
}

/// A request handler: the interface the sample service dispatches on.
pub trait Handler {
    /// Handles one request.
    fn handle(&self, request: &Request) -> Response;

    /// The handler's name.
    fn name(&self) -> &str;

    /// Pre-processes a request; the default leaves it unchanged.
    fn pre_process(&self, request: Request) -> (r: Request)
        ensures
            r.method@ == request.method@,
            r.path@ == request.path@,
            r.body@ == request.body@,
    {
        request
    }
}

/// The bytes of the fixed body the JSON handler answers with.
pub open spec fn json_processed_bytes() -> Seq<u8> {
    seq![
        123u8, 34u8, 112u8, 114u8, 111u8, 99u8, 101u8, 115u8, 115u8, 101u8, 100u8, 34u8,
        58u8, 32u8, 116u8, 114u8, 117u8, 101u8, 125u8,
    ]
}

/// A fresh vector holding the same bytes.
fn copy_bytes(src: &Vec<u8>) -> (r: Vec<u8>)
    ensures
        r@ =~= src@,
{
    let n = src.len();
    let mut out: Vec<u8> = Vec::new();
    let mut i: usize = 0;
    while i < n
        invariant
            n == src@.len(),
            0 <= i <= n,
            out@ =~= src@.take(i as int),
        decreases n - i,
    {
        out.push(src[i]);
        proof {
            assert(out@ =~= src@.take(i as int + 1));
        }
        i += 1;
    }
    proof {
        assert(src@.take(n as int) =~= src@);
    }
    out
}

/// Echoes the request body back.
pub struct EchoHandler {
    name: String,
}

impl EchoHandler {
    /// The handler's name.
    pub closed spec fn spec_name(&self) -> Seq<char> {
        self.name@
    }

    pub fn new() -> (r: EchoHandler)
        ensures
            r.spec_name() == "echo"@,
    {
        EchoHandler { name: "echo".to_owned() }
    }

    /// A success response echoing the request body.
    pub fn respond(&self, request: &Request) -> (r: Response)
        ensures
            r.status == 200,
            r.body@ == request.body@,
    {
        Response { status: 200, body: copy_bytes(&request.body) }
    }
}

impl Handler for EchoHandler {
    fn handle(&self, request: &Request) -> (r: Response)
        ensures
            r.status == 200,
            r.body@ == request.body@,
    {
        self.respond(request)
    }

    fn name(&self) -> (r: &str)
        ensures
            r@ == self.spec_name(),
    {
        self.name.as_str()
    }
}

/// Answers every request with a fixed body.
pub struct JsonHandler {
    name: String,
}

impl JsonHandler {
    /// The handler's name.
    pub closed spec fn spec_name(&self) -> Seq<char> {
        self.name@
    }

    pub fn new() -> (r: JsonHandler)
        ensures
            r.spec_name() == "json"@,
    {
        JsonHandler { name: "json".to_owned() }
    }

    /// A success response with the fixed processed-marker body, whatever
    /// the request.
    pub fn respond(&self, _request: &Request) -> (r: Response)
        ensures
            r.status == 200,
            r.body@ =~= json_processed_bytes(),
    {
        let mut body: Vec<u8> = Vec::new();
        body.push(123);
        body.push(34);
        body.push(112);
        body.push(114);
        body.push(111);
        body.push(99);
        body.push(101);
        body.push(115);
        body.push(115);
        body.push(101);
        body.push(100);
        body.push(34);
        body.push(58);
        body.push(32);
        body.push(116);
        body.push(114);
        body.push(117);
        body.push(101);
        body.push(125);
        Response { status: 200, body }
    }
}

impl Handler for JsonHandler {
    fn handle(&self, request: &Request) -> (r: Response)
        ensures
            r.status == 200,
            r.body@ =~= json_processed_bytes(),
    {
        self.respond(request)
    }

    fn name(&self) -> (r: &str)
        ensures
            r@ == self.spec_name(),
    {
        self.name.as_str()
    }
}

/// A growable container over any element type.
pub struct Container<T> {
    items: Vec<T>,
}

impl<T> Container<T> {
    /// The items held, in insertion order.
    pub closed spec fn spec_items(&self) -> Seq<T> {
        self.items@
    }

    pub fn new() -> (r: Container<T>)
        ensures
            r.spec_items() =~= Seq::<T>::empty(),
    {
        Container { items: Vec::new() }
    }

    pub fn add(&mut self, item: T)
        ensures
            final(self).spec_items() =~= old(self).spec_items().push(item),
    {
        self.items.push(item);
    }

    pub fn get(&self, index: usize) -> (r: Option<&T>)
        ensures
            match r {
                Some(v) => index < self.spec_items().len() && *v == self.spec_items()[index as int],
                None => index >= self.spec_items().len(),
            },
    {
        if index < self.items.len() {
            Some(&self.items[index])
        } else {
            None
        }
    }

    /// All items as a slice.
    pub fn all(&self) -> (r: &[T])
        ensures
            r@ == self.spec_items(),
    {
        self.items.as_slice()
    }

    pub fn len(&self) -> (r: usize)
        ensures
            r == self.spec_items().len(),
    {
        self.items.len()
    }

    pub fn is_empty(&self) -> (r: bool)
        ensures
            r == (self.spec_items().len() == 0),
    {
        self.items.is_empty()
    }
}

impl<T: Clone> Container<T> {
    /// A new container whose items are the images of this one's under `f`,
    /// in order.
    pub fn map<U, F: Fn(&T) -> U>(&self, f: F) -> (r: Container<U>)
        requires
            forall|i: int| 0 <= i < self.spec_items().len()
                ==> f.requires((&self.spec_items()[i],)),
        ensures
            r.spec_items().len() == self.spec_items().len(),
            forall|i: int| 0 <= i < self.spec_items().len()
                ==> f.ensures((&self.spec_items()[i],), #[trigger] r.spec_items()[i]),
    {
        let n = self.items.len();
        let mut out: Vec<U> = Vec::new();
        let mut i: usize = 0;
        while i < n
            invariant
                n == self.spec_items().len(),
                0 <= i <= n,
                out@.len() == i,
                forall|k: int| 0 <= k < self.spec_items().len()
                    ==> f.requires((&self.spec_items()[k],)),
                forall|k: int| 0 <= k < i
                    ==> f.ensures((&self.spec_items()[k],), #[trigger] out@[k]),
            decreases n - i,
        {
            let v = f(&self.items[i]);
            out.push(v);
            i += 1;
        }
        Container { items: out }
    }
}

impl<T> Default for Container<T> {
    fn default() -> (r: Container<T>)
        ensures
            r.spec_items() =~= Seq::<T>::empty(),
    {
        Container::new()
    }
}

/// Verbosity levels for the sample logger.
#[derive(Debug, Clone, Copy, PartialEq, Eq, Structural)]
pub enum LogLevel {
    Debug,
    Info,
    Warn,
    Error,
}

/// The HTTP methods the sample service understands.
#[derive(Debug, Clone, Copy, PartialEq, Eq, Structural)]
pub enum HttpMethod {
    Get,
    Post,
    Put,
    Delete,
    Patch,
}

impl HttpMethod {
    /// The canonical upper-case text of the method.
    pub open spec fn spec_text(&self) -> Seq<char> {
        match self {
            HttpMethod::Get => "GET"@,
            HttpMethod::Post => "POST"@,
            HttpMethod::Put => "PUT"@,
            HttpMethod::Delete => "DELETE"@,
            HttpMethod::Patch => "PATCH"@,
        }
    }

    /// The canonical upper-case text of the method.
    pub fn as_str(&self) -> (r: &str)
        ensures
            r@ == self.spec_text(),
    {
        match self {
            HttpMethod::Get => "GET",
            HttpMethod::Post => "POST",
            HttpMethod::Put => "PUT",
            HttpMethod::Delete => "DELETE",
            HttpMethod::Patch => "PATCH",
        }
    }
}

/// The outcome of a processing step.
#[derive(Debug)]
pub enum ProcessResult<T, E> {
    Success(T),
    Failure(E),
    Pending,
}

impl<T, E> ProcessResult<T, E> {
    pub fn is_success(&self) -> (r: bool)
        ensures
            r == (self is Success),
    {
        matches!(self, ProcessResult::Success(_))
    }

    /// The success value; callers must know the result succeeded.
    pub fn unwrap(self) -> (r: T)
        requires
            self is Success,
        ensures
            r == self->Success_0,
    {
        match self {
            ProcessResult::Success(v) => v,
            _ => unreached(),
        }
    }
}

/// A struct no sample code ever uses.
pub struct UnusedStruct {
    value: String,
}

impl UnusedStruct {
    /// The held text.
    pub closed spec fn spec_value(&self) -> Seq<char> {
        self.value@
    }

    pub fn new(value: &str) -> (r: UnusedStruct)
        ensures
            r.spec_value() == value@,
    {
        UnusedStruct { value: value.to_owned() }
    }
}

/// A generic struct no sample code ever uses.
pub struct AnotherUnusedStruct<T> {
    data: T,
}

impl<T> AnotherUnusedStruct<T> {
    /// The held value.
    pub closed spec fn spec_data(&self) -> T {
        self.data
    }

    pub fn new(data: T) -> (r: AnotherUnusedStruct<T>)
        ensures
            r.spec_data() == data,
    {
        AnotherUnusedStruct { data }
    }

    pub fn get_data(&self) -> (r: &T)
        ensures
            *r == self.spec_data(),
    {
        &self.data
    }
}

/// A point in the plane.
#[derive(Debug, Clone, Copy, PartialEq, Eq, Structural, Default)]
pub struct Point {
    pub x: i32,
    pub y: i32,
}

impl Point {
    pub fn new(x: i32, y: i32) -> (r: Point)
        ensures
            r.x == x,
            r.y == y,
    {
        Point { x, y }
    }
}

/// A user record.
#[derive(Debug, Clone)]
pub struct User {
    pub id: String,
    pub name: String,
    pub email: String,
}

} // verus!
