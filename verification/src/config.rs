//! Configuration of the daemon. Paths are plain text.

use vstd::prelude::*;

verus! {

/// Where the configuration is read from unless another path is given.
pub const DEFAULT_CONFIG_PATH: &'static str = "/etc/spotflow/spotflowd.toml";

#[derive(Debug, Clone)]
pub struct Config {
    pub device: DeviceConfig,
    pub mqtt: MqttConfig,
    pub sources: SourcesConfig,
    pub buffer: BufferConfig,
    pub metrics: MetricsConfig,
    /// Crash dump collection, where it is wanted.
    pub crashdump: Option<CrashdumpConfig>,
}

#[derive(Debug, Clone)]
pub struct DeviceConfig {
    pub id: String,
    pub ingest_key: String,
}

#[derive(Debug, Clone)]
pub struct MqttConfig {
    pub broker: String,
    pub port: u16,
    pub keepalive_secs: u64,
}

#[derive(Debug, Clone)]
pub struct SourcesConfig {
    pub journald: bool,
    pub syslog: bool,
    pub syslog_path: String,
}

#[derive(Debug, Clone)]
pub struct BufferConfig {
    /// Maximum number of log entries held in memory before flushing to disk.
    pub memory_max_entries: usize,
    /// Directory for on-disk spool chunks.
    pub disk_path: String,
    /// Maximum total size of the disk spool in megabytes.
    pub disk_max_size_mb: u64,
    /// Number of log entries per disk chunk file.
    pub disk_chunk_max_entries: usize,
}

/// Which groups of operating system metrics are collected.
#[derive(Debug, Clone)]
pub struct MetricGroups {
    pub cpu: bool,
    pub memory: bool,
    pub disk: bool,
    pub network: bool,
    pub system: bool,
}

#[derive(Debug, Clone)]
pub struct MetricsConfig {
    pub enabled: bool,
    pub collection_interval_secs: u64,
    /// One of `none`, `1m`, `1h` and `1d`.
    pub aggregation_interval: String,
    pub groups: MetricGroups,
    pub disk: DiskMetricsConfig,
    pub network: NetworkMetricsConfig,
    /// The socket for metrics of other programs, where it is wanted.
    pub custom: Option<MetricsCustomConfig>,
}

#[derive(Debug, Clone)]
pub struct DiskMetricsConfig {
    /// Mount points whose free space is reported.
    pub mount_points: Vec<String>,
}

#[derive(Debug, Clone)]
pub struct NetworkMetricsConfig {
    /// Network interfaces that are reported; all of them if there is none here.
    pub interfaces: Vec<String>,
}

#[derive(Debug, Clone)]
pub struct MetricsCustomConfig {
    pub socket_path: String,
}

#[derive(Debug, Clone)]
pub struct CrashdumpConfig {
    /// Directories to scan for records.
    pub paths: Vec<String>,
    /// Prefixes of the file names of records.
    pub kinds: Vec<String>,
    /// How much of a record is sent at most.
    pub max_bytes: usize,
    /// How much of a record goes into one message.
    pub chunk_bytes: usize,
    pub poll_interval_secs: u64,
    /// Whether a delivered record is deleted.
    pub delete_after_capture: bool,
}

/// Why a configuration is refused.
#[derive(Debug, Clone, Copy, PartialEq, Eq, Structural)]
pub enum ConfigError {
    EmptyDeviceId,
    EmptyIngestKey,
    NoMemoryEntries,
    NoChunkEntries,
}

impl ConfigError {
    /// The error in words.
    pub fn message(self) -> (s: String)
        ensures
            s@ == match self {
                ConfigError::EmptyDeviceId => "device.id must not be empty"@,
                ConfigError::EmptyIngestKey => "device.ingest_key must not be empty"@,
                ConfigError::NoMemoryEntries => "buffer.memory_max_entries must be > 0"@,
                ConfigError::NoChunkEntries => "buffer.disk_chunk_max_entries must be > 0"@,
            },
    {
        match self {
            ConfigError::EmptyDeviceId => "device.id must not be empty".to_string(),
            ConfigError::EmptyIngestKey => "device.ingest_key must not be empty".to_string(),
            ConfigError::NoMemoryEntries => "buffer.memory_max_entries must be > 0".to_string(),
            ConfigError::NoChunkEntries => "buffer.disk_chunk_max_entries must be > 0".to_string(),
        }
    }
}

impl Config {
    /// The first thing that is wrong with this configuration.
    pub open spec fn problem(&self) -> Option<ConfigError> {
        if self.device.id@.len() == 0 {
            Some(ConfigError::EmptyDeviceId)
        } else if self.device.ingest_key@.len() == 0 {
            Some(ConfigError::EmptyIngestKey)
        } else if self.buffer.memory_max_entries == 0 {
            Some(ConfigError::NoMemoryEntries)
        } else if self.buffer.disk_chunk_max_entries == 0 {
            Some(ConfigError::NoChunkEntries)
        } else {
            None
        }
    }

    /// Refuses a configuration that the daemon cannot run with.
    pub fn validate(&self) -> (r: Result<(), ConfigError>)
        ensures
            match r {
                Ok(_) => self.problem() is None,
                Err(e) => self.problem() == Some(e),
            },
    {
        if self.device.id.as_str().is_empty() {
            return Err(ConfigError::EmptyDeviceId);
        }
        if self.device.ingest_key.as_str().is_empty() {
            return Err(ConfigError::EmptyIngestKey);
        }
        if self.buffer.memory_max_entries == 0 {
            return Err(ConfigError::NoMemoryEntries);
        }
        if self.buffer.disk_chunk_max_entries == 0 {
            return Err(ConfigError::NoChunkEntries);
        }
        Ok(())
    }

    /// Everything but the device is as it is where nothing else is given.
    pub open spec fn is_default(&self, debian_syslog_exists: bool) -> bool {
        &&& self.mqtt.broker@ == "mqtt.spotflow.io"@
        &&& self.mqtt.port == 8883
        &&& self.mqtt.keepalive_secs == 60
        &&& self.sources.journald && self.sources.syslog
        &&& self.sources.syslog_path@ == default_syslog_path_spec(debian_syslog_exists)
        &&& self.buffer.memory_max_entries == 1000
        &&& self.buffer.disk_path@ == "/var/lib/spotflow/spool"@
        &&& self.buffer.disk_max_size_mb == 64
        &&& self.buffer.disk_chunk_max_entries == 200
        &&& !self.metrics.enabled
        &&& self.metrics.collection_interval_secs == 60
        &&& self.metrics.aggregation_interval@ == "1m"@
        &&& self.metrics.groups == (MetricGroups {
            cpu: true,
            memory: true,
            disk: true,
            network: true,
            system: true,
        })
        &&& self.metrics.disk.mount_points@.len() == 0
        &&& self.metrics.network.interfaces@.len() == 0
        &&& self.metrics.custom is None
        &&& self.crashdump is None
    }

    /// The configuration of a device for which nothing else is given. It is valid for
    /// every device with an id and a key.
    pub fn for_device(device: DeviceConfig, debian_syslog_exists: bool) -> (c: Config)
        ensures
            c.device == device,
            c.is_default(debian_syslog_exists),
            device.id@.len() > 0 && device.ingest_key@.len() > 0 ==> c.problem() is None,
    {
        Config {
            device,
            mqtt: MqttConfig {
                broker: default_broker(),
                port: default_port(),
                keepalive_secs: default_keepalive_secs(),
            },
            sources: SourcesConfig {
                journald: default_true(),
                syslog: default_true(),
                syslog_path: default_syslog_path(debian_syslog_exists),
            },
            buffer: BufferConfig {
                memory_max_entries: default_memory_max_entries(),
                disk_path: default_disk_path(),
                disk_max_size_mb: default_disk_max_size_mb(),
                disk_chunk_max_entries: default_disk_chunk_max_entries(),
            },
            metrics: MetricsConfig {
                enabled: false,
                collection_interval_secs: 60,
                aggregation_interval: "1m".to_string(),
                groups: MetricGroups {
                    cpu: true,
                    memory: true,
                    disk: true,
                    network: true,
                    system: true,
                },
                disk: DiskMetricsConfig { mount_points: Vec::new() },
                network: NetworkMetricsConfig { interfaces: Vec::new() },
                custom: None,
            },
            crashdump: None,
        }
    }
}

pub fn default_broker() -> (s: String)
    ensures
        s@ == "mqtt.spotflow.io"@,
{
    "mqtt.spotflow.io".to_string()
}

pub fn default_port() -> (n: u16)
    ensures
        n == 8883,
{
    8883
}

pub fn default_keepalive_secs() -> (n: u64)
    ensures
        n == 60,
{
    60
}

pub fn default_true() -> (b: bool)
    ensures
        b,
{
    true
}

/// Debian's syslog file where it exists, else the one of RHEL and Yocto.
pub open spec fn default_syslog_path_spec(debian_syslog_exists: bool) -> Seq<char> {
    if debian_syslog_exists {
        "/var/log/syslog"@
    } else {
        "/var/log/messages"@
    }
}

/// The syslog file to follow, given whether Debian's exists.
pub fn default_syslog_path(debian_syslog_exists: bool) -> (s: String)
    ensures
        s@ == default_syslog_path_spec(debian_syslog_exists),
{
    if debian_syslog_exists {
        "/var/log/syslog".to_string()
    } else {
        "/var/log/messages".to_string()
    }
}

pub fn default_memory_max_entries() -> (n: usize)
    ensures
        n == 1000,
{
    1000
}

pub fn default_disk_path() -> (s: String)
    ensures
        s@ == "/var/lib/spotflow/spool"@,
{
    "/var/lib/spotflow/spool".to_string()
}

pub fn default_disk_max_size_mb() -> (n: u64)
    ensures
        n == 64,
{
    64
}

pub fn default_disk_chunk_max_entries() -> (n: usize)
    ensures
        n == 200,
{
    200
}

/// A configuration is accepted exactly where the device has an id and a key and both the
/// memory and a chunk may hold entries. It is refused for something that is wrong with it,
/// and for the first such thing: id, key, memory, chunk.
pub proof fn law_sound_configurations_are_accepted(c: Config)
    ensures
        c.problem() is None <==> c.device.id@.len() > 0 && c.device.ingest_key@.len() > 0
            && c.buffer.memory_max_entries > 0 && c.buffer.disk_chunk_max_entries > 0,
        c.device.id@.len() == 0 ==> c.problem() == Some(ConfigError::EmptyDeviceId),
        c.device.id@.len() > 0 && c.device.ingest_key@.len() == 0 ==> c.problem() == Some(
            ConfigError::EmptyIngestKey,
        ),
        c.problem() == Some(ConfigError::NoMemoryEntries) ==> c.buffer.memory_max_entries == 0,
        c.problem() == Some(ConfigError::NoChunkEntries) ==> c.buffer.disk_chunk_max_entries == 0
            && c.buffer.memory_max_entries > 0,
        c.problem() == Some(ConfigError::EmptyDeviceId) ==> c.device.id@.len() == 0,
        c.problem() == Some(ConfigError::EmptyIngestKey) ==> c.device.ingest_key@.len() == 0,
{
}

/// Where nothing else is given, both log sources are followed, Debian's syslog file where it
/// exists and else `/var/log/messages`, and sent to `mqtt.spotflow.io:8883`. Memory holds a
/// thousand entries, and the spool at most 64 MB in chunks of two hundred. Metrics and crash
/// dumps are off; metrics would be taken in all groups, once a minute, by the minute.
pub proof fn law_defaults(c: Config, debian_syslog_exists: bool)
    requires
        c.is_default(debian_syslog_exists),
    ensures
        c.mqtt.broker@ == "mqtt.spotflow.io"@ && c.mqtt.port == 8883,
        c.mqtt.keepalive_secs == 60,
        c.sources.journald,
        c.sources.syslog,
        debian_syslog_exists ==> c.sources.syslog_path@ == "/var/log/syslog"@,
        !debian_syslog_exists ==> c.sources.syslog_path@ == "/var/log/messages"@,
        c.buffer.memory_max_entries == 1000,
        c.buffer.disk_path@ == "/var/lib/spotflow/spool"@,
        c.buffer.disk_max_size_mb == 64,
        c.buffer.disk_chunk_max_entries == 200,
        !c.metrics.enabled,
        c.metrics.collection_interval_secs == 60,
        c.metrics.aggregation_interval@ == "1m"@,
        c.metrics.groups.cpu && c.metrics.groups.memory && c.metrics.groups.disk
            && c.metrics.groups.network && c.metrics.groups.system,
        c.metrics.disk.mount_points@.len() == 0,
        c.metrics.network.interfaces@.len() == 0,
        c.metrics.custom is None,
        c.crashdump is None,
{
}

} // verus!
