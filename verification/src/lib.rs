//! A 2d broad-phase collision library built around a kd tree whose nodes keep the
//! elements that cross their divider sorted along the other axis.
pub mod geom;
pub mod pmut;
pub mod bbox;
pub mod pairs;
pub mod oned;
pub mod perm;
mod ext;
pub mod tree;
pub mod analyze;
pub mod colfind;
pub mod rect;
pub mod intersect_with;
pub mod multirect;
pub mod for_every_nearest;
pub mod laws;
pub mod support;
pub mod find;
pub mod graphics;
pub mod knearest;
pub mod raycast;
pub mod split;
pub mod collect;
pub mod nbody;
