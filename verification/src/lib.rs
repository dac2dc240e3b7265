//! Home-automation core: a cached variable store, MQTT topic routing, dashboard
//! messages and InfluxDB line-protocol points.
pub mod text;
pub mod types;
pub mod db;
pub mod mqtt;
pub mod dashboard;
pub mod influx;
