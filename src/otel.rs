//! OpenTelemetry export settings read from `TURBO_EXPERIMENTAL_OTEL_*`
//! environment variables.
use vstd::prelude::*;
use crate::kv::{key_value_pairs, message, parse_pairs, KeyValueMap};
use crate::text::{chars_of, str_eq, str_opt};

verus! {

pub const ENABLED_KEY: &'static str = "experimental_otel_enabled";
pub const PROTOCOL_KEY: &'static str = "experimental_otel_protocol";
pub const ENDPOINT_KEY: &'static str = "experimental_otel_endpoint";
pub const TIMEOUT_KEY: &'static str = "experimental_otel_timeout_ms";
pub const INTERVAL_KEY: &'static str = "experimental_otel_interval_ms";
pub const HEADERS_KEY: &'static str = "experimental_otel_headers";
pub const RESOURCE_KEY: &'static str = "experimental_otel_resource";
pub const RUN_SUMMARY_KEY: &'static str = "experimental_otel_metrics_run_summary";
pub const TASK_DETAILS_KEY: &'static str = "experimental_otel_metrics_task_details";
pub const ATTR_ID_KEY: &'static str = "experimental_otel_metrics_task_attributes_id";
pub const ATTR_HASHES_KEY: &'static str = "experimental_otel_metrics_task_attributes_hashes";
pub const TOKEN_KEY: &'static str = "experimental_otel_use_remote_cache_token";

pub const ENABLED_VAR: &'static str = "TURBO_EXPERIMENTAL_OTEL_ENABLED";
pub const HEADERS_VAR: &'static str = "TURBO_EXPERIMENTAL_OTEL_HEADERS";
pub const RESOURCE_VAR: &'static str = "TURBO_EXPERIMENTAL_OTEL_RESOURCE";
pub const RUN_SUMMARY_VAR: &'static str = "TURBO_EXPERIMENTAL_OTEL_METRICS_RUN_SUMMARY";
pub const TASK_DETAILS_VAR: &'static str = "TURBO_EXPERIMENTAL_OTEL_METRICS_TASK_DETAILS";
pub const ATTR_ID_VAR: &'static str = "TURBO_EXPERIMENTAL_OTEL_METRICS_TASK_ATTRIBUTES_ID";
pub const ATTR_HASHES_VAR: &'static str = "TURBO_EXPERIMENTAL_OTEL_METRICS_TASK_ATTRIBUTES_HASHES";
pub const TOKEN_VAR: &'static str = "TURBO_EXPERIMENTAL_OTEL_USE_REMOTE_CACHE_TOKEN";

pub const PROTOCOL_MSG_HEAD: &'static str = "Unsupported experimentalObservability.otel protocol `";
pub const PROTOCOL_MSG_TAIL: &'static str = "`. Use `grpc` or `http/protobuf`.";
pub const TIMEOUT_MSG: &'static str = "TURBO_EXPERIMENTAL_OTEL_TIMEOUT_MS must be a number.";
pub const INTERVAL_MSG: &'static str = "TURBO_EXPERIMENTAL_OTEL_INTERVAL_MS must be a number.";

/// Wire protocol of the exporter.
#[derive(Debug, Clone, Copy, PartialEq, Eq, Structural)]
pub enum ExperimentalOtelProtocol {
    Grpc,
    HttpProtobuf,
}

#[derive(Default, Debug, Clone, Copy, PartialEq, Eq)]
pub struct ExperimentalOtelTaskAttributesOptions {
    pub id: Option<bool>,
    pub hashes: Option<bool>,
}

#[derive(Default, Debug, Clone, Copy, PartialEq, Eq)]
pub struct ExperimentalOtelMetricsOptions {
    pub run_summary: Option<bool>,
    pub task_details: Option<bool>,
    pub task_attributes: Option<ExperimentalOtelTaskAttributesOptions>,
}

#[derive(Default, Debug, Clone, PartialEq, Eq)]
pub struct ExperimentalOtelOptions {
    pub enabled: Option<bool>,
    pub protocol: Option<ExperimentalOtelProtocol>,
    pub endpoint: Option<String>,
    pub headers: Option<KeyValueMap>,
    pub timeout_ms: Option<u64>,
    pub interval_ms: Option<u64>,
    pub resource: Option<KeyValueMap>,
    pub metrics: Option<ExperimentalOtelMetricsOptions>,
    pub use_remote_cache_token: Option<bool>,
}

/// A setting that cannot be used.
#[derive(Debug, Clone, PartialEq, Eq)]
pub enum Error {
    InvalidExperimentalOtelConfig { message: String },
}

impl Error {
    pub open spec fn text(&self) -> Seq<char> {
        match self {
            Error::InvalidExperimentalOtelConfig { message } => message@,
        }
    }
}

/// One of the metric switches.
#[derive(Debug, Clone, Copy, PartialEq, Eq, Structural)]
pub enum MetricFlag {
    RunSummary,
    TaskDetails,
    TaskAttributesId,
    TaskAttributesHashes,
}

/// The value set for `k`, where it is set and not empty.
pub open spec fn env_value(m: Map<Seq<char>, Seq<char>>, k: Seq<char>) -> Option<Seq<char>> {
    if m.contains_key(k) && m[k].len() > 0 {
        Some(m[k])
    } else {
        None
    }
}

/// `1` and `true` are on, `0` and `false` are off.
pub open spec fn truth_value(s: Seq<char>) -> Option<bool> {
    if s == "true"@ || s == "1"@ {
        Some(true)
    } else if s == "false"@ || s == "0"@ {
        Some(false)
    } else {
        None
    }
}

pub open spec fn bool_msg(var: Seq<char>) -> Seq<char> {
    var + " should be either 1 or 0."@
}

pub open spec fn protocol_of(s: Seq<char>) -> Option<ExperimentalOtelProtocol> {
    if s == "grpc"@ {
        Some(ExperimentalOtelProtocol::Grpc)
    } else if s == "http/protobuf"@ || s == "http"@ || s == "http_protobuf"@ {
        Some(ExperimentalOtelProtocol::HttpProtobuf)
    } else {
        None
    }
}

pub open spec fn protocol_msg(raw: Seq<char>) -> Seq<char> {
    PROTOCOL_MSG_HEAD@ + raw + PROTOCOL_MSG_TAIL@
}

pub open spec fn is_digit(c: char) -> bool {
    '0' <= c && c <= '9'
}

/// The number that a string of decimal digits spells.
pub open spec fn digits_value(s: Seq<char>) -> nat
    decreases s.len(),
{
    if s.len() == 0 {
        0
    } else {
        digits_value(s.drop_last()) * 10 + (s.last() as u32 as int - 48) as nat
    }
}

/// The digits of a number, after an optional leading `+`.
pub open spec fn unsigned_digits(s: Seq<char>) -> Seq<char> {
    if s.len() > 0 && s[0] == '+' {
        s.drop_first()
    } else {
        s
    }
}

pub open spec fn all_digits(d: Seq<char>) -> bool {
    forall|i: int| 0 <= i < d.len() ==> is_digit(#[trigger] d[i])
}

/// `u64::from_str`: an optional `+`, then one or more decimal digits whose
/// value fits in 64 bits.
pub open spec fn parse_u64_spec(s: Seq<char>) -> Option<u64> {
    let d = unsigned_digits(s);
    if d.len() > 0 && all_digits(d) && digits_value(d) <= u64::MAX {
        Some(digits_value(d) as u64)
    } else {
        None
    }
}

pub open spec fn bool_val(m: Map<Seq<char>, Seq<char>>, k: Seq<char>) -> Option<bool> {
    match env_value(m, k) {
        Some(raw) => truth_value(raw),
        None => None,
    }
}

pub open spec fn bool_err(m: Map<Seq<char>, Seq<char>>, k: Seq<char>, var: Seq<char>) -> Option<
    Seq<char>,
> {
    match env_value(m, k) {
        Some(raw) => if truth_value(raw) is None {
            Some(bool_msg(var))
        } else {
            None
        },
        None => None,
    }
}

pub open spec fn protocol_val(m: Map<Seq<char>, Seq<char>>) -> Option<ExperimentalOtelProtocol> {
    match env_value(m, PROTOCOL_KEY@) {
        Some(raw) => protocol_of(raw),
        None => None,
    }
}

pub open spec fn protocol_err(m: Map<Seq<char>, Seq<char>>) -> Option<Seq<char>> {
    match env_value(m, PROTOCOL_KEY@) {
        Some(raw) => if protocol_of(raw) is None {
            Some(protocol_msg(raw))
        } else {
            None
        },
        None => None,
    }
}

pub open spec fn num_val(m: Map<Seq<char>, Seq<char>>, k: Seq<char>) -> Option<u64> {
    match env_value(m, k) {
        Some(raw) => parse_u64_spec(raw),
        None => None,
    }
}

pub open spec fn num_err(m: Map<Seq<char>, Seq<char>>, k: Seq<char>, msg: Seq<char>) -> Option<
    Seq<char>,
> {
    match env_value(m, k) {
        Some(raw) => if parse_u64_spec(raw) is None {
            Some(msg)
        } else {
            None
        },
        None => None,
    }
}

pub open spec fn pairs_val(m: Map<Seq<char>, Seq<char>>, k: Seq<char>, ctx: Seq<char>) -> Option<
    Map<Seq<char>, Seq<char>>,
> {
    match env_value(m, k) {
        Some(raw) => match key_value_pairs(raw, ctx) {
            Ok(p) => Some(p),
            Err(_) => None,
        },
        None => None,
    }
}

pub open spec fn pairs_err(m: Map<Seq<char>, Seq<char>>, k: Seq<char>, ctx: Seq<char>) -> Option<
    Seq<char>,
> {
    match env_value(m, k) {
        Some(raw) => match key_value_pairs(raw, ctx) {
            Ok(_) => None,
            Err(e) => Some(e),
        },
        None => None,
    }
}

pub open spec fn or_else(a: Option<Seq<char>>, b: Option<Seq<char>>) -> Option<Seq<char>> {
    if a is Some {
        a
    } else {
        b
    }
}

/// The first setting that cannot be used, in the order they are read.
pub open spec fn otel_env_error(m: Map<Seq<char>, Seq<char>>) -> Option<Seq<char>> {
    or_else(
        bool_err(m, ENABLED_KEY@, ENABLED_VAR@),
        or_else(
            protocol_err(m),
            or_else(
                num_err(m, TIMEOUT_KEY@, TIMEOUT_MSG@),
                or_else(
                    num_err(m, INTERVAL_KEY@, INTERVAL_MSG@),
                    or_else(
                        pairs_err(m, HEADERS_KEY@, HEADERS_VAR@),
                        or_else(
                            pairs_err(m, RESOURCE_KEY@, RESOURCE_VAR@),
                            or_else(
                                bool_err(m, RUN_SUMMARY_KEY@, RUN_SUMMARY_VAR@),
                                or_else(
                                    bool_err(m, TASK_DETAILS_KEY@, TASK_DETAILS_VAR@),
                                    or_else(
                                        bool_err(m, ATTR_ID_KEY@, ATTR_ID_VAR@),
                                        or_else(
                                            bool_err(m, TOKEN_KEY@, TOKEN_VAR@),
                                            bool_err(m, ATTR_HASHES_KEY@, ATTR_HASHES_VAR@),
                                        ),
                                    ),
                                ),
                            ),
                        ),
                    ),
                ),
            ),
        ),
    )
}

pub open spec fn is_set(m: Map<Seq<char>, Seq<char>>, k: Seq<char>) -> bool {
    env_value(m, k) is Some
}

pub open spec fn attributes_set(m: Map<Seq<char>, Seq<char>>) -> bool {
    is_set(m, ATTR_ID_KEY@) || is_set(m, ATTR_HASHES_KEY@)
}

pub open spec fn metrics_set(m: Map<Seq<char>, Seq<char>>) -> bool {
    is_set(m, RUN_SUMMARY_KEY@) || is_set(m, TASK_DETAILS_KEY@) || attributes_set(m)
}

/// Whether any of the settings is given.
pub open spec fn any_set(m: Map<Seq<char>, Seq<char>>) -> bool {
    is_set(m, ENABLED_KEY@) || is_set(m, PROTOCOL_KEY@) || is_set(m, ENDPOINT_KEY@) || is_set(
        m,
        TIMEOUT_KEY@,
    ) || is_set(m, INTERVAL_KEY@) || is_set(m, HEADERS_KEY@) || is_set(m, RESOURCE_KEY@) || is_set(
        m,
        TOKEN_KEY@,
    ) || metrics_set(m)
}

pub open spec fn map_opt(o: Option<KeyValueMap>) -> Option<Map<Seq<char>, Seq<char>>> {
    match o {
        Some(p) => Some(p@),
        None => None,
    }
}

/// The options that a set of variables with no bad setting describes.
pub open spec fn options_from(opts: ExperimentalOtelOptions, m: Map<Seq<char>, Seq<char>>) -> bool {
    &&& opts.enabled == bool_val(m, ENABLED_KEY@)
    &&& opts.protocol == protocol_val(m)
    &&& str_opt(opts.endpoint) == env_value(m, ENDPOINT_KEY@)
    &&& opts.timeout_ms == num_val(m, TIMEOUT_KEY@)
    &&& opts.interval_ms == num_val(m, INTERVAL_KEY@)
    &&& map_opt(opts.headers) == pairs_val(m, HEADERS_KEY@, HEADERS_VAR@)
    &&& map_opt(opts.resource) == pairs_val(m, RESOURCE_KEY@, RESOURCE_VAR@)
    &&& opts.use_remote_cache_token == bool_val(m, TOKEN_KEY@)
    &&& (opts.metrics is Some <==> metrics_set(m))
    &&& opts.metrics matches Some(mt) ==> {
        &&& mt.run_summary == bool_val(m, RUN_SUMMARY_KEY@)
        &&& mt.task_details == bool_val(m, TASK_DETAILS_KEY@)
        &&& (mt.task_attributes is Some <==> attributes_set(m))
        &&& mt.task_attributes matches Some(a) ==> a.id == bool_val(m, ATTR_ID_KEY@) && a.hashes
            == bool_val(m, ATTR_HASHES_KEY@)
    }
}

pub open spec fn map_empty(o: Option<KeyValueMap>) -> bool {
    match o {
        Some(p) => p@ == Map::<Seq<char>, Seq<char>>::empty(),
        None => true,
    }
}

/// Whether no option holds a value.
pub open spec fn options_empty(o: ExperimentalOtelOptions) -> bool {
    &&& o.enabled is None
    &&& o.protocol is None
    &&& o.endpoint is None
    &&& map_empty(o.headers)
    &&& o.timeout_ms is None
    &&& o.interval_ms is None
    &&& map_empty(o.resource)
    &&& o.use_remote_cache_token is None
    &&& match o.metrics {
        Some(m) => m.run_summary is None && m.task_details is None && match m.task_attributes {
            Some(a) => a.id is None && a.hashes is None,
            None => true,
        },
        None => true,
    }
}

fn invalid(message: String) -> (r: Error)
    ensures
        r.text() == message@,
{
    Error::InvalidExperimentalOtelConfig { message }
}

/// Reads an on/off switch: `1` or `true`, `0` or `false`.
pub fn truth_env_var(raw: &str) -> (r: Option<bool>)
    ensures
        r == truth_value(raw@),
{
    if str_eq(raw, "true") || str_eq(raw, "1") {
        Some(true)
    } else if str_eq(raw, "false") || str_eq(raw, "0") {
        Some(false)
    } else {
        None
    }
}

/// Reads an exporter protocol name.
pub fn parse_protocol(raw: &str) -> (r: Option<ExperimentalOtelProtocol>)
    ensures
        r == protocol_of(raw@),
{
    if str_eq(raw, "grpc") {
        Some(ExperimentalOtelProtocol::Grpc)
    } else if str_eq(raw, "http/protobuf") || str_eq(raw, "http") || str_eq(raw, "http_protobuf") {
        Some(ExperimentalOtelProtocol::HttpProtobuf)
    } else {
        None
    }
}

proof fn lemma_digits_prefix(s: Seq<char>, k: int)
    requires
        0 <= k <= s.len(),
    ensures
        digits_value(s.take(k)) <= digits_value(s),
    decreases s.len() - k,
{
    if k < s.len() {
        lemma_digits_prefix(s, k + 1);
        assert(s.take(k + 1).drop_last() =~= s.take(k));
    } else {
        assert(s.take(k) =~= s);
    }
}

/// Reads a decimal number as `u64::from_str` does.
pub fn parse_u64(raw: &str) -> (r: Option<u64>)
    ensures
        r == parse_u64_spec(raw@),
{
    let cs = chars_of(raw);
    let start: usize = if cs.len() > 0 && cs[0] == '+' {
        1
    } else {
        0
    };
    let ghost d = unsigned_digits(raw@);
    assert(d =~= cs@.subrange(start as int, cs.len() as int));
    if start == cs.len() {
        return None;
    }
    let mut v: u64 = 0;
    let mut i = start;
    while i < cs.len()
        invariant
            start <= i <= cs.len(),
            cs@ == raw@,
            d == unsigned_digits(raw@),
            d.len() > 0,
            d == cs@.subrange(start as int, cs.len() as int),
            forall|j: int| start <= j < i ==> is_digit(#[trigger] cs@[j]),
            v == digits_value(d.take(i - start)),
        decreases cs.len() - i,
    {
        let c = cs[i];
        if !('0' <= c && c <= '9') {
            assert(!is_digit(d[i - start]));
            assert(!all_digits(d));
            return None;
        }
        let dg = (c as u32 - 48) as u64;
        assert(d.take(i - start + 1).drop_last() =~= d.take(i - start));
        assert(d.take(i - start + 1).last() == c);
        assert(digits_value(d.take(i - start + 1)) == v * 10 + dg);
        if v > (u64::MAX - dg) / 10 {
            proof {
                assert(v * 10 + dg > u64::MAX) by (nonlinear_arith)
                    requires
                        v > (u64::MAX - dg) / 10,
                        dg <= 9,
                ;
                lemma_digits_prefix(d, i - start + 1);
            }
            return None;
        }
        assert(v * 10 + dg <= u64::MAX) by (nonlinear_arith)
            requires
                v <= (u64::MAX - dg) / 10,
                dg <= 9,
        ;
        v = v * 10 + dg;
        i += 1;
    }
    assert(d.take(d.len() as int) =~= d);
    Some(v)
}

/// The value set for `key`, where it is set and not empty.
pub fn get_non_empty<'a>(map: &'a KeyValueMap, key: &str) -> (r: Option<&'a str>)
    ensures
        match r {
            Some(s) => env_value(map@, key@) == Some(s@),
            None => env_value(map@, key@) is None,
        },
{
    match map.get(key) {
        Some(v) => {
            if v.as_str().is_empty() {
                None
            } else {
                Some(v.as_str())
            }
        },
        None => None,
    }
}

/// Reads an on/off switch named `var` in the error.
pub fn parse_bool_flag(raw: &str, var: &str) -> (r: Result<bool, Error>)
    ensures
        match r {
            Ok(b) => truth_value(raw@) == Some(b),
            Err(e) => truth_value(raw@) is None && e.text() == bool_msg(var@),
        },
{
    match truth_env_var(raw) {
        Some(b) => Ok(b),
        None => Err(invalid(message(var, " should be either 1 or 0."))),
    }
}

/// Reads a comma-separated `key=value` list named `context` in the error.
pub fn parse_key_value_pairs(raw: &str, context: &str) -> (r: Result<KeyValueMap, Error>)
    ensures
        match r {
            Ok(m) => key_value_pairs(raw@, context@) == Ok::<Map<Seq<char>, Seq<char>>, Seq<char>>(
                m@,
            ),
            Err(e) => key_value_pairs(raw@, context@) == Err::<Map<Seq<char>, Seq<char>>, Seq<char>>(
                e.text(),
            ),
        },
{
    match parse_pairs(raw, context) {
        Ok(m) => Ok(m),
        Err(e) => Err(invalid(e)),
    }
}

pub open spec fn metric_value(m: ExperimentalOtelMetricsOptions, flag: MetricFlag) -> Option<bool> {
    match flag {
        MetricFlag::RunSummary => m.run_summary,
        MetricFlag::TaskDetails => m.task_details,
        MetricFlag::TaskAttributesId => match m.task_attributes {
            Some(a) => a.id,
            None => None,
        },
        MetricFlag::TaskAttributesHashes => match m.task_attributes {
            Some(a) => a.hashes,
            None => None,
        },
    }
}

/// `m` with one switch set to `value`; the task attributes are created when
/// one of their switches is set.
pub open spec fn with_metric(m: ExperimentalOtelMetricsOptions, flag: MetricFlag, value: bool) -> ExperimentalOtelMetricsOptions {
    let a = match m.task_attributes {
        Some(a) => a,
        None => ExperimentalOtelTaskAttributesOptions { id: None, hashes: None },
    };
    match flag {
        MetricFlag::RunSummary => ExperimentalOtelMetricsOptions { run_summary: Some(value), ..m },
        MetricFlag::TaskDetails => ExperimentalOtelMetricsOptions { task_details: Some(value), ..m },
        MetricFlag::TaskAttributesId => ExperimentalOtelMetricsOptions {
            task_attributes: Some(ExperimentalOtelTaskAttributesOptions { id: Some(value), ..a }),
            ..m
        },
        MetricFlag::TaskAttributesHashes => ExperimentalOtelMetricsOptions {
            task_attributes: Some(ExperimentalOtelTaskAttributesOptions { hashes: Some(value), ..a }),
            ..m
        },
    }
}

pub open spec fn empty_metrics() -> ExperimentalOtelMetricsOptions {
    ExperimentalOtelMetricsOptions { run_summary: None, task_details: None, task_attributes: None }
}

/// Sets one metric switch from the variable `key`, where it is set; says
/// whether it was.
pub fn set_metric_flag(
    map: &KeyValueMap,
    key: &str,
    env_name: &str,
    flag: MetricFlag,
    options: &mut ExperimentalOtelOptions,
) -> (r: Result<bool, Error>)
    ensures
        match r {
            Ok(touched) => {
                &&& touched == is_set(map@, key@)
                &&& bool_err(map@, key@, env_name@) is None
                &&& touched ==> final(options).metrics == Some(
                    with_metric(
                        match old(options).metrics {
                            Some(m) => m,
                            None => empty_metrics(),
                        },
                        flag,
                        bool_val(map@, key@)->0,
                    ),
                )
                &&& !touched ==> final(options).metrics == old(options).metrics
            },
            Err(e) => bool_err(map@, key@, env_name@) == Some(e.text()),
        },
        final(options).enabled == old(options).enabled,
        final(options).protocol == old(options).protocol,
        final(options).endpoint == old(options).endpoint,
        final(options).headers == old(options).headers,
        final(options).timeout_ms == old(options).timeout_ms,
        final(options).interval_ms == old(options).interval_ms,
        final(options).resource == old(options).resource,
        final(options).use_remote_cache_token == old(options).use_remote_cache_token,
{
    match get_non_empty(map, key) {
        Some(raw) => {
            let value = match parse_bool_flag(raw, env_name) {
                Ok(v) => v,
                Err(e) => return Err(e),
            };
            let m = match options.metrics {
                Some(m) => m,
                None => ExperimentalOtelMetricsOptions {
                    run_summary: None,
                    task_details: None,
                    task_attributes: None,
                },
            };
            let a = match m.task_attributes {
                Some(a) => a,
                None => ExperimentalOtelTaskAttributesOptions { id: None, hashes: None },
            };
            let next = match flag {
                MetricFlag::RunSummary => ExperimentalOtelMetricsOptions {
                    run_summary: Some(value),
                    ..m
                },
                MetricFlag::TaskDetails => ExperimentalOtelMetricsOptions {
                    task_details: Some(value),
                    ..m
                },
                MetricFlag::TaskAttributesId => ExperimentalOtelMetricsOptions {
                    task_attributes: Some(ExperimentalOtelTaskAttributesOptions { id: Some(value), ..a }),
                    ..m
                },
                MetricFlag::TaskAttributesHashes => ExperimentalOtelMetricsOptions {
                    task_attributes: Some(
                        ExperimentalOtelTaskAttributesOptions { hashes: Some(value), ..a },
                    ),
                    ..m
                },
            };
            options.metrics = Some(next);
            Ok(true)
        },
        None => Ok(false),
    }
}

impl ExperimentalOtelOptions {
    /// Whether no option holds a value; an empty map counts as no value.
    pub fn is_empty(&self) -> (r: bool)
        ensures
            r == options_empty(*self),
    {
        let headers_empty = match &self.headers {
            Some(m) => m.is_empty(),
            None => true,
        };
        let resource_empty = match &self.resource {
            Some(m) => m.is_empty(),
            None => true,
        };
        let metrics_empty = match &self.metrics {
            Some(m) => m.run_summary.is_none() && m.task_details.is_none() && match &m.task_attributes {
                Some(a) => a.id.is_none() && a.hashes.is_none(),
                None => true,
            },
            None => true,
        };
        self.enabled.is_none() && self.protocol.is_none() && self.endpoint.is_none() && headers_empty
            && self.timeout_ms.is_none() && self.interval_ms.is_none() && resource_empty
            && self.use_remote_cache_token.is_none() && metrics_empty
    }
    /// Reads the settings from environment variables, by their lower-case
    /// names without the `TURBO_` prefix; an empty value counts as unset.
    /// Gives `None` where no setting is given, and the first bad setting as
    /// an error.
    pub fn from_env_map(map: &KeyValueMap) -> (r: Result<Option<Self>, Error>)
        ensures
            match r {
                Err(e) => otel_env_error(map@) == Some(e.text()),
                Ok(o) => {
                    &&& otel_env_error(map@) is None
                    &&& (o is Some <==> any_set(map@))
                    &&& o matches Some(opts) ==> options_from(opts, map@)
                },
            },
    {
        let mut options = ExperimentalOtelOptions {
            enabled: None,
            protocol: None,
            endpoint: None,
            headers: None,
            timeout_ms: None,
            interval_ms: None,
            resource: None,
            metrics: None,
            use_remote_cache_token: None,
        };
        let mut touched = false;
        if let Some(raw) = get_non_empty(map, ENABLED_KEY) {
            match parse_bool_flag(raw, ENABLED_VAR) {
                Ok(b) => {
                    options.enabled = Some(b);
                    touched = true;
                },
                Err(e) => return Err(e),
            }
        }
        if let Some(raw) = get_non_empty(map, PROTOCOL_KEY) {
            match parse_protocol(raw) {
                Some(p) => {
                    options.protocol = Some(p);
                    touched = true;
                },
                None => {
                    let mut msg = message(PROTOCOL_MSG_HEAD, raw);
                    msg.append(PROTOCOL_MSG_TAIL);
                    return Err(invalid(msg));
                },
            }
        }
        if let Some(raw) = get_non_empty(map, ENDPOINT_KEY) {
            options.endpoint = Some(raw.to_owned());
            touched = true;
        }
        if let Some(raw) = get_non_empty(map, TIMEOUT_KEY) {
            match parse_u64(raw) {
                Some(n) => {
                    options.timeout_ms = Some(n);
                    touched = true;
                },
                None => return Err(invalid(TIMEOUT_MSG.to_owned())),
            }
        }
        if let Some(raw) = get_non_empty(map, INTERVAL_KEY) {
            match parse_u64(raw) {
                Some(n) => {
                    options.interval_ms = Some(n);
                    touched = true;
                },
                None => return Err(invalid(INTERVAL_MSG.to_owned())),
            }
        }
        if let Some(raw) = get_non_empty(map, HEADERS_KEY) {
            match parse_key_value_pairs(raw, HEADERS_VAR) {
                Ok(p) => {
                    options.headers = Some(p);
                    touched = true;
                },
                Err(e) => return Err(e),
            }
        }
        if let Some(raw) = get_non_empty(map, RESOURCE_KEY) {
            match parse_key_value_pairs(raw, RESOURCE_VAR) {
                Ok(p) => {
                    options.resource = Some(p);
                    touched = true;
                },
                Err(e) => return Err(e),
            }
        }
        let ghost m0 = options.metrics;
        match set_metric_flag(map, RUN_SUMMARY_KEY, RUN_SUMMARY_VAR, MetricFlag::RunSummary, &mut options) {
            Ok(t) => touched = touched || t,
            Err(e) => return Err(e),
        }
        match set_metric_flag(map, TASK_DETAILS_KEY, TASK_DETAILS_VAR, MetricFlag::TaskDetails, &mut options) {
            Ok(t) => touched = touched || t,
            Err(e) => return Err(e),
        }
        match set_metric_flag(map, ATTR_ID_KEY, ATTR_ID_VAR, MetricFlag::TaskAttributesId, &mut options) {
            Ok(t) => touched = touched || t,
            Err(e) => return Err(e),
        }
        if let Some(raw) = get_non_empty(map, TOKEN_KEY) {
            match parse_bool_flag(raw, TOKEN_VAR) {
                Ok(b) => {
                    options.use_remote_cache_token = Some(b);
                    touched = true;
                },
                Err(e) => return Err(e),
            }
        }
        match set_metric_flag(map, ATTR_HASHES_KEY, ATTR_HASHES_VAR, MetricFlag::TaskAttributesHashes, &mut options) {
            Ok(t) => touched = touched || t,
            Err(e) => return Err(e),
        }
        if touched {
            Ok(Some(options))
        } else {
            Ok(None)
        }
    }
}

} // verus!
