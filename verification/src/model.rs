use vstd::prelude::*;

verus! {

/// One health check of one instance, as the monitoring files report it.
#[derive(Debug, Clone, PartialEq)]
pub struct HealthInstance {
    pub instance_status: Option<String>,
    pub health_status: Option<String>,
    pub instance_name: Option<String>,
    pub details: Option<String>,
}

/// The checks of one environment of one customer, counted.
#[derive(Debug, Clone, PartialEq)]
pub struct EnvStatus {
    pub customer: String,
    pub env_name: String,
    pub total: usize,
    pub ok: usize,
    pub err: usize,
    pub filename: String,
}

/// The environments of one customer, with their counts added up.
#[derive(Debug, Clone, PartialEq)]
pub struct CustomerGroup {
    pub customer: String,
    pub total: usize,
    pub ok: usize,
    pub err: usize,
    pub envs: Vec<EnvStatus>,
}

/// One slice of the customer chart.
#[derive(Debug, Clone, PartialEq)]
pub struct CustomerChartDatum {
    pub customer: String,
    pub total: usize,
}

/// One point of a history chart.
#[derive(Debug, Clone, PartialEq)]
pub struct HistoricalPoint {
    pub label: String,
    pub passed: usize,
    pub failed: usize,
    pub total: usize,
    pub filename: String,
}

/// One history file with its checks, counted.
#[derive(Debug, Clone, PartialEq)]
pub struct HistoricalFileData {
    pub label: String,
    pub filename: String,
    pub passed: usize,
    pub failed: usize,
    pub total: usize,
    pub items: Vec<HealthInstance>,
}

/// The history of one environment, with the failures of its latest file split into
/// those seen before and those that are new.
#[derive(Debug, Clone, PartialEq)]
pub struct HistoryCategorized {
    pub env: EnvStatus,
    pub points: Vec<HistoricalFileData>,
    pub existing_errors: Vec<HealthInstance>,
    pub new_errors: Vec<HealthInstance>,
}

/// One object of a bucket listing.
#[derive(Debug, Clone, PartialEq)]
pub struct OCIObject {
    pub name: String,
}

/// A bucket listing; the objects stand under `objects` or under `data`.
#[derive(Debug, Clone, PartialEq)]
pub struct OCIListResponse {
    pub objects: Vec<OCIObject>,
    pub data: Vec<OCIObject>,
}

/// Which environments the dashboard shows.
#[derive(Debug, Clone, Copy, PartialEq, Eq)]
pub enum Filter {
    All,
    Failed,
    Healthy,
}

/// The page the dashboard shows.
#[derive(Debug, Clone, Copy, PartialEq, Eq)]
pub enum PageView {
    Dashboard,
    Detail,
    History,
}

/// The field by which the detail page orders its checks.
#[derive(Debug, Clone, Copy, PartialEq, Eq)]
pub enum DetailSortField {
    InstanceName,
    InstanceStatus,
    HealthStatus,
}

/// A copy of an optional string.
pub fn copy_opt(o: &Option<String>) -> (r: Option<String>)
    ensures
        r == *o,
{
    match o {
        Some(s) => Some(s.clone()),
        None => None,
    }
}

impl HealthInstance {
    /// A copy of this check, equal to it.
    pub fn duplicate(&self) -> (r: HealthInstance)
        ensures
            r == *self,
    {
        HealthInstance {
            instance_status: copy_opt(&self.instance_status),
            health_status: copy_opt(&self.health_status),
            instance_name: copy_opt(&self.instance_name),
            details: copy_opt(&self.details),
        }
    }
}

impl EnvStatus {
    /// A copy of this environment, equal to it.
    pub fn duplicate(&self) -> (r: EnvStatus)
        ensures
            r == *self,
    {
        EnvStatus {
            customer: self.customer.clone(),
            env_name: self.env_name.clone(),
            total: self.total,
            ok: self.ok,
            err: self.err,
            filename: self.filename.clone(),
        }
    }
}

} // verus!
