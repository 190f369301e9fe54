pub mod call_context;
pub mod rpc_functions;
pub mod rpc_handler;
