//! What a worker's settings mean.

use vstd::prelude::*;
use vstd::string::*;

use crate::graph::stream::{one_stream, stream_text, StreamId, StreamIdView};
use crate::storage::names::{has_prefix, strip_prefix};
use crate::text::{said_between, same_text, says};

verus! {

/// Where a warehouse is.
#[derive(Debug)]
pub enum Warehouse {
    /// A directory.
    File { path: String },
    /// The process's own memory.
    Memory,
    /// A bucket.
    S3 { bucket: String },
}

/// What a [`Warehouse`] says.
#[verifier::ext_equal]
pub ghost enum WarehouseView {
    File(Seq<char>),
    Memory,
    S3(Seq<char>),
}

impl View for Warehouse {
    type V = WarehouseView;

    open spec fn view(&self) -> WarehouseView {
        match self {
            Warehouse::File { path } => WarehouseView::File(path@),
            Warehouse::Memory => WarehouseView::Memory,
            Warehouse::S3 { bucket } => WarehouseView::S3(bucket@),
        }
    }
}

/// Why settings make no sense.
#[derive(Debug, Clone, Copy, PartialEq, Eq, Structural)]
pub enum ConfigError {
    UnsupportedWarehouse,
    MissingBucket,
    UnknownRoutingBase,
    UnknownElection,
    TwoSources,
}

/// The words of a [`ConfigError`] about the setting `given`.
pub open spec fn config_error_text(e: ConfigError, given: Seq<char>) -> Seq<char> {
    match e {
        ConfigError::UnsupportedWarehouse => "unsupported warehouse uri '"@ + given
            + "' (file://, s3://, memory://)"@,
        ConfigError::MissingBucket => "s3 uri missing bucket: "@ + given,
        ConfigError::UnknownRoutingBase => "unknown --routing-base '"@ + given + "' (ram, disk)"@,
        ConfigError::UnknownElection => "unknown election mode '"@ + given
            + "' (static:true, static:false, k8s)"@,
        ConfigError::TwoSources =>
            "--simulate and --edge-log both feed the pipeline, and their offsets would interleave in one space; pick one (generate a log with the `edge_log` example if you want simulated data through the log path)"@,
    }
}

impl ConfigError {
    /// The error in words, about the setting `given`.
    pub fn to_text(&self, given: &str) -> (s: String)
        ensures
            s@ == config_error_text(*self, given@),
    {
        match self {
            ConfigError::UnsupportedWarehouse => {
                let mut s = String::from_str("unsupported warehouse uri '");
                s.append(given);
                s.append("' (file://, s3://, memory://)");
                s
            },
            ConfigError::MissingBucket => {
                let mut s = String::from_str("s3 uri missing bucket: ");
                s.append(given);
                s
            },
            ConfigError::UnknownRoutingBase => {
                let mut s = String::from_str("unknown --routing-base '");
                s.append(given);
                s.append("' (ram, disk)");
                s
            },
            ConfigError::UnknownElection => {
                let mut s = String::from_str("unknown election mode '");
                s.append(given);
                s.append("' (static:true, static:false, k8s)");
                s
            },
            ConfigError::TwoSources => String::from_str(
                "--simulate and --edge-log both feed the pipeline, and their offsets would interleave in one space; pick one (generate a log with the `edge_log` example if you want simulated data through the log path)",
            ),
        }
    }
}

/// `s` without any number of leading `prefix`es.
pub open spec fn without_prefixes(s: Seq<char>, prefix: Seq<char>) -> Seq<char>
    decreases s.len(),
{
    if prefix.len() > 0 && has_prefix(s, prefix) {
        without_prefixes(s.skip(prefix.len() as int), prefix)
    } else {
        s
    }
}

/// The index of the first slash of `s`; its length where there is none.
pub open spec fn slash_at(s: Seq<char>) -> int
    decreases s.len(),
{
    if s.len() == 0 {
        0
    } else if s[0] == '/' {
        0
    } else {
        1 + slash_at(s.skip(1))
    }
}

/// `s` without trailing slashes.
pub open spec fn without_slashes(s: Seq<char>) -> Seq<char>
    decreases s.len(),
{
    if s.len() > 0 && s.last() == '/' {
        without_slashes(s.drop_last())
    } else {
        s
    }
}

/// What an `s3://` address says after the scheme.
pub open spec fn s3_rest(uri: Seq<char>) -> Seq<char> {
    without_prefixes(uri, "s3://"@)
}

/// The bucket that an `s3://` address names.
pub open spec fn s3_bucket_text(uri: Seq<char>) -> Seq<char> {
    s3_rest(uri).take(slash_at(s3_rest(uri)))
}

/// The warehouse that `uri` names.
pub open spec fn warehouse_at(uri: Seq<char>) -> Result<WarehouseView, ConfigError> {
    if has_prefix(uri, "file://"@) {
        Ok(WarehouseView::File(uri.skip("file://"@.len() as int)))
    } else if has_prefix(uri, "memory://"@) {
        Ok(WarehouseView::Memory)
    } else if has_prefix(uri, "s3://"@) {
        if s3_bucket_text(uri).len() == 0 {
            Err(ConfigError::MissingBucket)
        } else {
            Ok(WarehouseView::S3(s3_bucket_text(uri)))
        }
    } else {
        Err(ConfigError::UnsupportedWarehouse)
    }
}

/// Where objects of `table` start in the warehouse at `uri`: for
/// `s3://bucket/some/prefix` under `some/prefix`.
pub open spec fn table_prefix_at(uri: Seq<char>, table: Seq<char>) -> Seq<char> {
    let rest = s3_rest(uri);
    let prefix = rest.skip(slash_at(rest) + 1);
    if has_prefix(uri, "s3://"@) && slash_at(rest) + 1 < rest.len() {
        without_slashes(prefix) + "/"@ + table
    } else {
        table
    }
}

/// What an `s3://` address says after the scheme.
fn after_scheme(uri: &str) -> (rest: &str)
    ensures
        rest@ == s3_rest(uri@),
{
    let mut rest: &str = uri;
    proof {
        reveal_strlit("s3://");
    }
    loop
        invariant_except_break
            s3_rest(rest@) == s3_rest(uri@),
            "s3://"@.len() > 0,
        ensures
            rest@ == s3_rest(uri@),
        decreases rest@.len(),
    {
        match strip_prefix(rest, "s3://") {
            None => {
                break ;
            },
            Some(r) => {
                rest = r;
            },
        }
    }
    rest
}

/// The index of the first slash of `s`; its length where there is none.
fn find_slash(s: &str) -> (at: usize)
    ensures
        at == slash_at(s@),
        at <= s@.len(),
{
    let n: usize = s.unicode_len();
    let mut i: usize = 0;
    proof {
        assert(s@.skip(0) =~= s@);
    }
    while i < n && s.get_char(i) != '/'
        invariant
            i <= n,
            n == s@.len(),
            slash_at(s@) == i + slash_at(s@.skip(i as int)),
        decreases n - i,
    {
        proof {
            let here = s@.skip(i as int);
            assert(here[0] == s@[i as int]);
            assert(here.skip(1) =~= s@.skip(i + 1));
        }
        i += 1;
    }
    proof {
        let here = s@.skip(i as int);
        if i < n {
            assert(here[0] == s@[i as int]);
        }
    }
    i
}

/// The warehouse that `uri` names.
pub fn warehouse_of(uri: &str) -> (r: Result<Warehouse, ConfigError>)
    ensures
        match r {
            Ok(w) => warehouse_at(uri@) == Ok::<WarehouseView, ConfigError>(w@),
            Err(e) => warehouse_at(uri@) == Err::<WarehouseView, ConfigError>(e),
        },
{
    if let Some(path) = strip_prefix(uri, "file://") {
        return Ok(Warehouse::File { path: String::from_str(path) });
    }
    if strip_prefix(uri, "memory://").is_some() {
        return Ok(Warehouse::Memory);
    }
    if strip_prefix(uri, "s3://").is_some() {
        let bucket = s3_bucket(uri)?;
        return Ok(Warehouse::S3 { bucket });
    }
    Err(ConfigError::UnsupportedWarehouse)
}

/// The bucket that an `s3://` address names.
pub fn s3_bucket(uri: &str) -> (r: Result<String, ConfigError>)
    ensures
        match r {
            Ok(b) => b@ == s3_bucket_text(uri@) && b@.len() > 0,
            Err(e) => e is MissingBucket && s3_bucket_text(uri@).len() == 0,
        },
{
    let rest = after_scheme(uri);
    let at: usize = find_slash(rest);
    if at == 0 {
        return Err(ConfigError::MissingBucket);
    }
    let bucket = rest.substring_char(0, at);
    assert(bucket@ =~= rest@.take(at as int));
    Ok(String::from_str(bucket))
}

/// Where objects of `table` start in the warehouse at `uri`.
pub fn s3_table_prefix(uri: &str, table: &str) -> (s: String)
    ensures
        s@ == table_prefix_at(uri@, table@),
{
    if strip_prefix(uri, "s3://").is_none() {
        return String::from_str(table);
    }
    let rest = after_scheme(uri);
    let at: usize = find_slash(rest);
    let n: usize = rest.unicode_len();
    if n == 0 || at >= n - 1 {
        return String::from_str(table);
    }
    let prefix = rest.substring_char(at + 1, n);
    assert(prefix@ =~= rest@.skip(at + 1));
    let mut end: usize = n - at - 1;
    assert(prefix@.take(end as int) =~= prefix@);
    while end > 0 && prefix.get_char(end - 1) == '/'
        invariant
            end <= prefix@.len(),
            without_slashes(prefix@) == without_slashes(prefix@.take(end as int)),
        decreases end,
    {
        assert(prefix@.take(end as int).drop_last() =~= prefix@.take(end - 1));
        end -= 1;
    }
    let kept = prefix.substring_char(0, end);
    assert(kept@ =~= prefix@.take(end as int));
    assert(without_slashes(prefix@) =~= kept@);
    let mut s = String::from_str(kept);
    s.append("/");
    s.append(table);
    s
}

/// Where committed routing state is served from.
#[derive(Debug, Clone, Copy, PartialEq, Eq, Structural)]
pub enum RoutingMode {
    /// Hydrated into the heap.
    Ram,
    /// Mapped from a local cache of the latest snapshot.
    Disk,
}

/// `ram` or `disk`.
pub fn routing_mode(given: &str) -> (r: Result<RoutingMode, ConfigError>)
    ensures
        match r {
            Ok(RoutingMode::Ram) => given@ == "ram"@,
            Ok(RoutingMode::Disk) => given@ == "disk"@,
            Err(e) => e is UnknownRoutingBase && given@ != "ram"@ && given@ != "disk"@,
        },
{
    if same_text(given, "ram") {
        Ok(RoutingMode::Ram)
    } else if same_text(given, "disk") {
        Ok(RoutingMode::Disk)
    } else {
        Err(ConfigError::UnknownRoutingBase)
    }
}

/// How leadership is decided.
#[derive(Debug, Clone, Copy, PartialEq, Eq, Structural)]
pub enum Election {
    Static { leader: bool },
    Kubernetes,
}

/// `static:true`, `static:false` or `k8s`.
pub fn election_mode(given: &str) -> (r: Result<Election, ConfigError>)
    ensures
        match r {
            Ok(Election::Static { leader }) => given@ == (if leader {
                "static:true"@
            } else {
                "static:false"@
            }),
            Ok(Election::Kubernetes) => given@ == "k8s"@,
            Err(e) => e is UnknownElection && given@ != "static:true"@ && given@
                != "static:false"@ && given@ != "k8s"@,
        },
{
    if same_text(given, "static:true") {
        Ok(Election::Static { leader: true })
    } else if same_text(given, "static:false") {
        Ok(Election::Static { leader: false })
    } else if same_text(given, "k8s") {
        Ok(Election::Kubernetes)
    } else {
        Err(ConfigError::UnknownElection)
    }
}

/// Where events come from. Offsets are assigned by a log or minted locally,
/// never both.
#[derive(Debug, Clone, Copy, PartialEq, Eq, Structural)]
pub enum EventSource {
    Log,
    Injected { simulate: bool },
}

/// Where events come from.
pub fn event_source(edge_log: bool, simulate: bool) -> (r: Result<EventSource, ConfigError>)
    ensures
        match r {
            Ok(EventSource::Log) => edge_log && !simulate,
            Ok(EventSource::Injected { simulate: s }) => !edge_log && s == simulate,
            Err(e) => e is TwoSources && edge_log && simulate,
        },
{
    if edge_log {
        if simulate {
            return Err(ConfigError::TwoSources);
        }
        return Ok(EventSource::Log);
    }
    Ok(EventSource::Injected { simulate })
}

/// Whether a worker may resume a table against its stream.
#[derive(Debug, Clone, Copy, PartialEq, Eq, Structural)]
pub enum StreamCheck {
    /// The same stream, or nothing is known of one of them.
    Fine,
    /// Another stream, and the operator said that its offsets still mean the
    /// same.
    Allowed,
    /// Another stream: offsets of one are meaningless in the other.
    Refused,
}

/// Whether a worker configured for `stream` may resume a table committed
/// against `committed`.
pub fn check_stream(
    committed: Option<&StreamId>,
    stream: Option<&StreamId>,
    allow_change: bool,
) -> (r: StreamCheck)
    ensures
        r is Fine <==> !(committed is Some && stream is Some && !one_stream(
            committed->Some_0@,
            stream->Some_0@,
        )),
        r is Allowed <==> !(r is Fine) && allow_change,
{
    match (committed, stream) {
        (Some(c), Some(s)) => if c.same_stream(s) {
            StreamCheck::Fine
        } else if allow_change {
            StreamCheck::Allowed
        } else {
            StreamCheck::Refused
        },
        _ => StreamCheck::Fine,
    }
}

/// The words of a refused resumption.
pub open spec fn refusal_text(committed: StreamIdView, stream: StreamIdView) -> Seq<char> {
    "this table's snapshots were committed against "@ + stream_text(committed)
        + ", but this worker is configured for "@ + stream_text(stream)
        + ". Offsets from one stream are meaningless in the other. Point --edge-log at the original stream, start a new table, or pass --allow-stream-change if the stream was renamed or moved with its offsets intact."@
}

/// Why a worker configured for `stream` refuses to resume.
pub fn stream_refusal(committed: &StreamId, stream: &StreamId) -> (s: String)
    ensures
        s@ == refusal_text(committed@, stream@),
{
    let mut s = String::from_str("this table's snapshots were committed against ");
    s.append(committed.to_text().as_str());
    s.append(", but this worker is configured for ");
    s.append(stream.to_text().as_str());
    s.append(
        ". Offsets from one stream are meaningless in the other. Point --edge-log at the original stream, start a new table, or pass --allow-stream-change if the stream was renamed or moved with its offsets intact.",
    );
    s
}

// --- laws ------------------------------------------------------------------------

/// `s` has no slash.
pub open spec fn slashless(s: Seq<char>) -> bool {
    forall|i: int| 0 <= i < s.len() ==> #[trigger] s[i] != '/'
}

proof fn the_first_slash(s: Seq<char>)
    ensures
        0 <= slash_at(s) <= s.len(),
        slash_at(s) < s.len() ==> s[slash_at(s)] == '/',
        forall|i: int| 0 <= i < slash_at(s) ==> #[trigger] s[i] != '/',
    decreases s.len(),
{
    if s.len() > 0 && s[0] != '/' {
        let t = s.skip(1);
        the_first_slash(t);
        assert forall|i: int| 0 <= i < slash_at(s) implies #[trigger] s[i] != '/' by {
            if i > 0 {
                assert(t[i - 1] == s[i]);
            }
        }
    }
}

/// A bucket ends at the first slash behind it.
proof fn a_bucket_ends_at_a_slash(bucket: Seq<char>, rest: Seq<char>)
    requires
        slashless(bucket),
        rest.len() > 0 ==> rest[0] == '/',
    ensures
        slash_at(bucket + rest) == bucket.len(),
        (bucket + rest).take(bucket.len() as int) == bucket,
        (bucket + rest).skip(bucket.len() as int) == rest,
{
    let s = bucket + rest;
    the_first_slash(s);
    let at = slash_at(s);
    if at < bucket.len() {
        assert(bucket[at] == s[at]);
    } else if at > bucket.len() {
        assert(s[bucket.len() as int] == rest[0]);
    }
    assert(s.take(bucket.len() as int) =~= bucket);
    assert(s.skip(bucket.len() as int) =~= rest);
}

/// What follows the scheme once, where it is not the scheme again.
proof fn the_scheme_is_dropped(rest: Seq<char>)
    requires
        !has_prefix(rest, "s3://"@),
    ensures
        has_prefix("s3://"@ + rest, "s3://"@),
        s3_rest("s3://"@ + rest) == rest,
        !has_prefix("s3://"@ + rest, "file://"@),
        !has_prefix("s3://"@ + rest, "memory://"@),
{
    reveal_strlit("s3://");
    reveal_strlit("file://");
    reveal_strlit("memory://");
    let p = "s3://"@;
    let uri = p + rest;
    assert(uri.take(p.len() as int) =~= p);
    assert(uri.skip(p.len() as int) =~= rest);
    assert(without_prefixes(rest, p) == rest);
    assert(uri[0] == 's');
    if has_prefix(uri, "file://"@) {
        assert(uri.take("file://"@.len() as int)[0] == 'f');
    }
    if has_prefix(uri, "memory://"@) {
        assert(uri.take("memory://"@.len() as int)[0] == 'm');
    }
}

/// **A warehouse is where its address says**: the path after `file://`, the
/// process's memory for `memory://`, and the bucket between `s3://` and the next
/// slash, which must not be empty.
#[verifier::rlimit(50)]
pub proof fn a_warehouse_is_where_its_address_says(
    path: Seq<char>,
    bucket: Seq<char>,
    rest: Seq<char>,
)
    requires
        slashless(bucket),
        rest.len() > 0 ==> rest[0] == '/',
        bucket != "s3:"@,
    ensures
        warehouse_at("file://"@ + path) == Ok::<WarehouseView, ConfigError>(
            WarehouseView::File(path),
        ),
        warehouse_at("memory://"@ + path) == Ok::<WarehouseView, ConfigError>(
            WarehouseView::Memory,
        ),
        warehouse_at("s3://"@ + bucket + rest) == if bucket.len() > 0 {
            Ok::<WarehouseView, ConfigError>(WarehouseView::S3(bucket))
        } else {
            Err(ConfigError::MissingBucket)
        },
{
    reveal_strlit("s3://");
    reveal_strlit("s3:");
    reveal_strlit("file://");
    reveal_strlit("memory://");
    let f = "file://"@ + path;
    assert(f.take("file://"@.len() as int) =~= "file://"@);
    assert(f.skip("file://"@.len() as int) =~= path);
    let m = "memory://"@ + path;
    assert(m.take("memory://"@.len() as int) =~= "memory://"@);
    if has_prefix(m, "file://"@) {
        assert(m[0] == 'm');
        assert(m.take("file://"@.len() as int)[0] == 'f');
    }
    let after = bucket + rest;
    a_bucket_ends_at_a_slash(bucket, rest);
    a_bucket_is_no_scheme(bucket, rest);
    the_scheme_is_dropped(after);
    assert("s3://"@ + bucket + rest =~= "s3://"@ + after);
}

proof fn a_bucket_is_no_scheme(bucket: Seq<char>, rest: Seq<char>)
    requires
        slashless(bucket),
        rest.len() > 0 ==> rest[0] == '/',
        bucket != "s3:"@,
    ensures
        !has_prefix(bucket + rest, "s3://"@),
{
    reveal_strlit("s3://");
    reveal_strlit("s3:");
    let after = bucket + rest;
    if has_prefix(after, "s3://"@) {
        let head = after.take("s3://"@.len() as int);
        assert(head[0] == 's' && head[1] == '3' && head[2] == ':' && head[3] == '/');
        a_bucket_ends_at_a_slash(bucket, rest);
        the_first_slash(after);
        assert(after[0] == 's' && after[1] == '3' && after[2] == ':' && after[3] == '/');
        if bucket.len() > 3 {
            assert(bucket[3] == after[3]);
        } else if bucket.len() < 3 {
            assert(after[bucket.len() as int] == rest[0]);
        }
        assert(bucket =~= "s3:"@);
    }
}

/// **Any other address is refused.**
pub proof fn an_unknown_scheme_is_refused(uri: Seq<char>)
    ensures
        warehouse_at(uri) == Err::<WarehouseView, ConfigError>(ConfigError::UnsupportedWarehouse)
            <==> !has_prefix(uri, "file://"@) && !has_prefix(uri, "memory://"@) && !has_prefix(
            uri,
            "s3://"@,
        ),
{
}

/// **A table lies under the prefix of its bucket**: behind `s3://bucket/`, with
/// the slashes at its end dropped; a bucket without one, and any other
/// warehouse, holds the table by its name.
pub proof fn a_table_lies_under_its_prefix(
    bucket: Seq<char>,
    prefix: Seq<char>,
    slashes: nat,
    table: Seq<char>,
    uri: Seq<char>,
)
    requires
        slashless(bucket),
        bucket != "s3:"@,
        prefix.len() > 0,
        prefix.last() != '/',
    ensures
        table_prefix_at(
            "s3://"@ + bucket + "/"@ + prefix + Seq::new(slashes, |i: int| '/'),
            table,
        ) == prefix + "/"@ + table,
        table_prefix_at("s3://"@ + bucket, table) == table,
        table_prefix_at("s3://"@ + bucket + "/"@, table) == table,
        !has_prefix(uri, "s3://"@) ==> table_prefix_at(uri, table) == table,
{
    reveal_strlit("s3://");
    reveal_strlit("/");
    let tail = Seq::new(slashes, |i: int| '/');
    let path = prefix + tail;
    let rest = "/"@ + path;
    assert("s3://"@ + bucket + "/"@ + prefix + tail =~= "s3://"@ + (bucket + rest));
    assert(rest[0] == '/');
    a_bucket_ends_at_a_slash(bucket, rest);
    a_bucket_is_no_scheme(bucket, rest);
    the_scheme_is_dropped(bucket + rest);
    assert((bucket + rest).skip(bucket.len() as int + 1) =~= path);
    trailing_slashes_go(prefix, slashes);
    a_bucket_ends_at_a_slash(bucket, Seq::empty());
    a_bucket_is_no_scheme(bucket, Seq::empty());
    assert(bucket + Seq::<char>::empty() =~= bucket);
    the_scheme_is_dropped(bucket);
    a_bucket_ends_at_a_slash(bucket, "/"@);
    a_bucket_is_no_scheme(bucket, "/"@);
    the_scheme_is_dropped(bucket + "/"@);
    assert("s3://"@ + bucket + "/"@ =~= "s3://"@ + (bucket + "/"@));
}

proof fn trailing_slashes_go(prefix: Seq<char>, slashes: nat)
    requires
        prefix.len() > 0,
        prefix.last() != '/',
    ensures
        without_slashes(prefix + Seq::new(slashes, |i: int| '/')) == prefix,
    decreases slashes,
{
    let s = prefix + Seq::new(slashes, |i: int| '/');
    if slashes == 0 {
        assert(s =~= prefix);
    } else {
        trailing_slashes_go(prefix, (slashes - 1) as nat);
        assert(s.drop_last() =~= prefix + Seq::new((slashes - 1) as nat, |i: int| '/'));
    }
}

/// **A refused setting is quoted**: two are refused in the same words only where
/// they are the same.
#[verifier::rlimit(50)]
pub proof fn a_refused_setting_is_quoted(e: ConfigError, a: Seq<char>, b: Seq<char>)
    requires
        !(e is TwoSources),
    ensures
        config_error_text(e, a) == config_error_text(e, b) <==> a == b,
{
    let x = config_error_text(e, a);
    let y = config_error_text(e, b);
    if x == y {
        match e {
            ConfigError::UnsupportedWarehouse => {
                let k = "unsupported warehouse uri '"@.len() as int;
                let m = "' (file://, s3://, memory://)"@.len();
                assert(x.len() == k + a.len() + m && y.len() == k + b.len() + m);
                assert(a =~= x.subrange(k, k + a.len()));
                assert(b =~= y.subrange(k, k + b.len()));
            },
            ConfigError::MissingBucket => {
                let k = "s3 uri missing bucket: "@.len() as int;
                assert(a =~= x.skip(k));
                assert(b =~= y.skip(k));
            },
            ConfigError::UnknownRoutingBase => {
                let k = "unknown --routing-base '"@.len() as int;
                let m = "' (ram, disk)"@.len();
                assert(x.len() == k + a.len() + m && y.len() == k + b.len() + m);
                assert(a =~= x.subrange(k, k + a.len()));
                assert(b =~= y.subrange(k, k + b.len()));
            },
            ConfigError::UnknownElection => {
                let k = "unknown election mode '"@.len() as int;
                let m = "' (static:true, static:false, k8s)"@.len();
                assert(x.len() == k + a.len() + m && y.len() == k + b.len() + m);
                assert(a =~= x.subrange(k, k + a.len()));
                assert(b =~= y.subrange(k, k + b.len()));
            },
            ConfigError::TwoSources => {},
        }
    }
}

/// **A setting is taken by its name, and no other is.**
#[verifier::rlimit(50)]
pub proof fn a_setting_is_taken_by_its_name(
    given: &str,
    r: Result<RoutingMode, ConfigError>,
    e: Result<Election, ConfigError>,
    edge_log: bool,
    simulate: bool,
    s: Result<EventSource, ConfigError>,
)
    requires
        call_ensures(routing_mode, (given,), r),
        call_ensures(election_mode, (given,), e),
        call_ensures(event_source, (edge_log, simulate), s),
    ensures
        given@ == "ram"@ ==> r == Ok::<RoutingMode, ConfigError>(RoutingMode::Ram),
        given@ == "disk"@ ==> r == Ok::<RoutingMode, ConfigError>(RoutingMode::Disk),
        r is Ok ==> given@ == "ram"@ || given@ == "disk"@,
        given@ == "static:true"@ ==> e == Ok::<Election, ConfigError>(
            Election::Static { leader: true },
        ),
        given@ == "static:false"@ ==> e == Ok::<Election, ConfigError>(
            Election::Static { leader: false },
        ),
        given@ == "k8s"@ ==> e == Ok::<Election, ConfigError>(Election::Kubernetes),
        e is Ok ==> given@ == "static:true"@ || given@ == "static:false"@ || given@ == "k8s"@,
        s is Err <==> edge_log && simulate,
        edge_log && !simulate ==> s == Ok::<EventSource, ConfigError>(EventSource::Log),
        !edge_log ==> s == Ok::<EventSource, ConfigError>(EventSource::Injected { simulate }),
{
    reveal_strlit("ram");
    reveal_strlit("disk");
    reveal_strlit("static:true");
    reveal_strlit("static:false");
    reveal_strlit("k8s");
    assert("ram"@.len() == 3 && "disk"@.len() == 4 && "static:true"@.len() == 11
        && "static:false"@.len() == 12 && "k8s"@.len() == 3);
    assert("ram"@[0] == 'r' && "k8s"@[0] == 'k');
}

/// **A table is resumed against its own stream alone**, unless the operator allows
/// another: two streams differ where both are known and source or name do.
pub proof fn a_table_is_resumed_against_its_own_stream(
    committed: StreamId,
    stream: StreamId,
    allow_change: bool,
    known: StreamCheck,
    fresh: StreamCheck,
    unset: StreamCheck,
)
    requires
        call_ensures(check_stream, (Some(&committed), Some(&stream), allow_change), known),
        call_ensures(check_stream, (None::<&StreamId>, Some(&stream), allow_change), fresh),
        call_ensures(check_stream, (Some(&committed), None::<&StreamId>, allow_change), unset),
    ensures
        known is Fine <==> committed.source@ == stream.source@ && committed.name@ == stream.name@,
        known is Refused ==> !allow_change,
        known is Allowed ==> allow_change,
        fresh is Fine,
        unset is Fine,
{
}

/// **A warehouse that is opened is the one addressed**, and a table lies where its
/// address says.
pub proof fn an_opened_warehouse_is_the_one_addressed(
    uri: &str,
    path: Seq<char>,
    bucket: Seq<char>,
    rest: Seq<char>,
    r: Result<Warehouse, ConfigError>,
)
    requires
        call_ensures(warehouse_of, (uri,), r),
        slashless(bucket),
        bucket.len() > 0,
        rest.len() > 0 ==> rest[0] == '/',
        bucket != "s3:"@,
    ensures
        uri@ == "file://"@ + path ==> (r matches Ok(Warehouse::File { path: p }) && p@ == path),
        uri@ == "memory://"@ + path ==> (r matches Ok(Warehouse::Memory)),
        uri@ == "s3://"@ + bucket + rest ==> (r matches Ok(Warehouse::S3 { bucket: b }) && b@
            == bucket),
{
    a_warehouse_is_where_its_address_says(path, bucket, rest);
}

/// **A refused resumption names both streams**, what the table has and what the
/// worker is configured for.
#[verifier::rlimit(50)]
pub proof fn a_refused_resumption_names_both_streams(
    committed: StreamId,
    stream: StreamId,
    s: String,
)
    requires
        call_ensures(stream_refusal, (&committed, &stream), s),
    ensures
        says(s@, committed.source@ + "://"@ + committed.name@),
        says(s@, stream.source@ + "://"@ + stream.name@),
{
    let t = s@;
    let pre = "this table's snapshots were committed against "@;
    let x = committed.source@ + "://"@ + committed.name@;
    let y = stream.source@ + "://"@ + stream.name@;
    let b = pre + stream_text(committed@) + ", but this worker is configured for "@;
    let xs = stream_text(committed@).skip(x.len() as int);
    let ys = stream_text(stream@).skip(y.len() as int);
    assert(stream_text(committed@) =~= x + xs);
    assert(stream_text(stream@) =~= y + ys);
    said_between(t, pre, x, t.skip((pre + x).len() as int));
    said_between(t, b, y, t.skip((b + y).len() as int));
}

} // verus!
