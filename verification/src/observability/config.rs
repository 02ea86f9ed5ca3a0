use vstd::prelude::*;
use vstd::string::StringExecFns;

verus! {

/// Observability configuration.
#[derive(Debug, Clone)]
pub struct ObservabilityConfig {
    pub service_name: String,
    pub service_version: String,
    pub log_level: String,
    pub metrics_port: u16,
    pub jaeger_endpoint: Option<String>,
    pub enable_tracing: bool,
    pub enable_metrics: bool,
}

impl Default for ObservabilityConfig {
    /// Service `siput-node` at the crate's version, log level `info`,
    /// metrics on port 9090, no Jaeger endpoint, tracing and metrics on.
    fn default() -> (c: Self)
        ensures
            c.service_name@ == "siput-node"@,
            c.service_version@ == "0.1.0"@,
            c.log_level@ == "info"@,
            c.metrics_port == 9090,
            c.jaeger_endpoint is None,
            c.enable_tracing,
            c.enable_metrics,
    {
        ObservabilityConfig {
            service_name: String::from_str("siput-node"),
            service_version: String::from_str("0.1.0"),
            log_level: String::from_str("info"),
            metrics_port: 9090,
            jaeger_endpoint: None,
            enable_tracing: true,
            enable_metrics: true,
        }
    }
}

impl ObservabilityConfig {
    /// The default configuration.
    pub fn new() -> (c: Self)
        ensures
            c.service_name@ == "siput-node"@,
            c.service_version@ == "0.1.0"@,
            c.log_level@ == "info"@,
            c.metrics_port == 9090,
            c.jaeger_endpoint is None,
            c.enable_tracing,
            c.enable_metrics,
    {
        Self::default()
    }

    /// Set the service name.
    pub fn service_name(self, name: &str) -> (c: Self)
        ensures
            c.service_name@ == name@,
            c.service_version == self.service_version,
            c.log_level == self.log_level,
            c.metrics_port == self.metrics_port,
            c.jaeger_endpoint == self.jaeger_endpoint,
            c.enable_tracing == self.enable_tracing,
            c.enable_metrics == self.enable_metrics,
    {
        let mut c = self;
        c.service_name = String::from_str(name);
        c
    }

    /// Set the service version.
    pub fn service_version(self, version: &str) -> (c: Self)
        ensures
            c.service_version@ == version@,
            c.service_name == self.service_name,
            c.log_level == self.log_level,
            c.metrics_port == self.metrics_port,
            c.jaeger_endpoint == self.jaeger_endpoint,
            c.enable_tracing == self.enable_tracing,
            c.enable_metrics == self.enable_metrics,
    {
        let mut c = self;
        c.service_version = String::from_str(version);
        c
    }

    /// Set the log level.
    pub fn log_level(self, level: &str) -> (c: Self)
        ensures
            c.log_level@ == level@,
            c.service_name == self.service_name,
            c.service_version == self.service_version,
            c.metrics_port == self.metrics_port,
            c.jaeger_endpoint == self.jaeger_endpoint,
            c.enable_tracing == self.enable_tracing,
            c.enable_metrics == self.enable_metrics,
    {
        let mut c = self;
        c.log_level = String::from_str(level);
        c
    }

    /// Set the metrics port.
    pub fn metrics_port(self, port: u16) -> (c: Self)
        ensures
            c.metrics_port == port,
            c.service_name == self.service_name,
            c.service_version == self.service_version,
            c.log_level == self.log_level,
            c.jaeger_endpoint == self.jaeger_endpoint,
            c.enable_tracing == self.enable_tracing,
            c.enable_metrics == self.enable_metrics,
    {
        let mut c = self;
        c.metrics_port = port;
        c
    }

    /// Set the Jaeger endpoint.
    pub fn jaeger_endpoint(self, endpoint: &str) -> (c: Self)
        ensures
            c.jaeger_endpoint matches Some(e) && e@ == endpoint@,
            c.service_name == self.service_name,
            c.service_version == self.service_version,
            c.log_level == self.log_level,
            c.metrics_port == self.metrics_port,
            c.enable_tracing == self.enable_tracing,
            c.enable_metrics == self.enable_metrics,
    {
        let mut c = self;
        c.jaeger_endpoint = Some(String::from_str(endpoint));
        c
    }

    /// Turn tracing on or off.
    pub fn enable_tracing(self, enable: bool) -> (c: Self)
        ensures
            c.enable_tracing == enable,
            c.service_name == self.service_name,
            c.service_version == self.service_version,
            c.log_level == self.log_level,
            c.metrics_port == self.metrics_port,
            c.jaeger_endpoint == self.jaeger_endpoint,
            c.enable_metrics == self.enable_metrics,
            c == with_tracing(self, enable),
    {
        let mut c = self;
        c.enable_tracing = enable;
        c
    }

    /// Turn metrics on or off.
    pub fn enable_metrics(self, enable: bool) -> (c: Self)
        ensures
            c.enable_metrics == enable,
            c.service_name == self.service_name,
            c.service_version == self.service_version,
            c.log_level == self.log_level,
            c.metrics_port == self.metrics_port,
            c.jaeger_endpoint == self.jaeger_endpoint,
            c.enable_tracing == self.enable_tracing,
            c == with_metrics(self, enable),
    {
        let mut c = self;
        c.enable_metrics = enable;
        c
    }
}

/// `c` with tracing turned on or off, as `enable_tracing` leaves it.
pub open spec fn with_tracing(c: ObservabilityConfig, enable: bool) -> ObservabilityConfig {
    ObservabilityConfig { enable_tracing: enable, ..c }
}

/// `c` with metrics turned on or off, as `enable_metrics` leaves it.
pub open spec fn with_metrics(c: ObservabilityConfig, enable: bool) -> ObservabilityConfig {
    ObservabilityConfig { enable_metrics: enable, ..c }
}

/// The tracing and metrics switches are independent: setting one leaves the
/// other as it was, setting both in either order gives the same
/// configuration, and setting one twice keeps the later value.
pub proof fn lemma_switches_commute(c: ObservabilityConfig, a: bool, b: bool)
    ensures
        with_metrics(c, a).enable_metrics == a,
        with_metrics(c, a).enable_tracing == c.enable_tracing,
        with_tracing(c, b).enable_tracing == b,
        with_tracing(c, b).enable_metrics == c.enable_metrics,
        with_tracing(with_metrics(c, a), b) == with_metrics(with_tracing(c, b), a),
        with_metrics(with_metrics(c, b), a) == with_metrics(c, a),
        with_tracing(with_tracing(c, a), b) == with_tracing(c, b),
{
}

} // verus!
