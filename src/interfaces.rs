//! Traits shared by the messages of both directions, and the handler that
//! lets client messages through.

use vstd::prelude::*;
use core::marker::PhantomData;

verus! {

/// A message of an SQL wire protocol.
pub trait SQLMessage {}

/// A message of the PostgreSQL protocol, in either direction.
pub trait PostgresMessage: SQLMessage {}

impl SQLMessage for crate::backend::Message {}

impl PostgresMessage for crate::backend::Message {}

impl SQLMessage for crate::frontend::Message {}

impl PostgresMessage for crate::frontend::Message {}

/// A handler that hands every message on unchanged.
#[derive(Debug)]
pub struct PassthroughHandler<M> {
    _phantom: PhantomData<M>,
}

impl<M> PassthroughHandler<M> {
    pub fn new() -> (r: PassthroughHandler<M>) {
        PassthroughHandler { _phantom: PhantomData }
    }

    pub fn process(&mut self, msg: M) -> (r: M)
        ensures
            r == msg,
    {
        msg
    }
}

} // verus!
