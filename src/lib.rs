//! A package manager core for JVM projects: coordinates and manifests, a
//! SAT-based dependency resolver, the content cache layout, the lock file
//! and the installer's decisions, each with its contract proved.
pub mod text;
pub mod table;
pub mod coordinate;
pub mod descriptor;
pub mod manifest;
pub mod sat;
pub mod resolver;
pub mod checksum;
pub mod lockfile;
pub mod cache;
pub mod installer;
pub mod platform;
pub mod packager;
pub mod testing;
pub mod updater;
