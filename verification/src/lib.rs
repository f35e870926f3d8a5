pub mod bakefile;
pub mod cache;
pub mod config;
pub mod count;
pub mod dag;
pub mod docker;
pub mod failure;
pub mod format;
pub mod job;
pub mod order;
pub mod runner;
pub mod schedule;
pub mod session;
pub mod settings;
pub mod strmap;
pub mod tar;
pub mod text;
pub mod toastfile;
