//! Running a graph, node by node.
//!
//! Nothing here touches a device. Kernels are planned as data ([`crate::plan`]): which program
//! runs on which buffers, with which push constants, over how many work groups. What a node needs
//! next is a function of the values that are there ([`dispatch`]), and a run ([`run`]) goes from
//! node to node, in and out of branches, for whoever owns the device to carry out.

pub mod attention;
pub mod attention_laws;
pub mod carry_out;
pub mod conv;
pub mod conv_laws;
pub mod cut_laws;
pub mod cut_steps;
pub mod dispatch;
pub mod elementwise;
pub mod gather;
pub mod host_steps;
pub mod host_work;
pub mod int_product;
pub mod launch;
pub mod layout;
pub mod liveness;
pub mod map_laws;
pub mod map_steps;
pub mod move_laws;
pub mod move_steps;
pub mod norm;
pub mod plan_laws;
pub mod product;
pub mod product_laws;
pub mod progress;
pub mod quantize;
pub mod ready_laws;
pub mod reshape;
pub mod run;
pub mod run_laws;
pub mod sampling;
pub mod size_laws;
pub mod step_laws;
pub mod steps;
pub mod success_laws;
pub mod support;
pub mod transpose;
pub mod transpose_laws;
pub mod window;
pub mod work;
