//! A slice that is either borrowed from the caller or owned on the heap.
use std::ops::{Deref, DerefMut};
use vstd::prelude::*;

verus! {

/// A slice held with exclusive access: borrowed mutably, or owned as a
/// vector.
#[derive(Debug)]
pub enum ManagedSlice<'a, T> {
    /// Borrowed variant.
    Borrowed(&'a mut [T]),
    /// Owned variant.
    Owned(Vec<T>),
}

impl<'a, T> View for ManagedSlice<'a, T> {
    type V = Seq<T>;

    open spec fn view(&self) -> Seq<T> {
        match self {
            ManagedSlice::Borrowed(s) => s@,
            ManagedSlice::Owned(v) => v@,
        }
    }
}

impl<T: 'static> From<Vec<T>> for ManagedSlice<'static, T> {
    fn from(value: Vec<T>) -> Self {
        ManagedSlice::Owned(value)
    }
}

impl<T: 'static> vstd::std_specs::convert::FromSpecImpl<Vec<T>> for ManagedSlice<'static, T> {
    open spec fn obeys_from_spec() -> bool {
        true
    }

    open spec fn from_spec(value: Vec<T>) -> Self {
        ManagedSlice::Owned(value)
    }
}

impl<'a, T> Deref for ManagedSlice<'a, T> {
    type Target = [T];

    fn deref(&self) -> &[T] {
        match self {
            ManagedSlice::Borrowed(s) => s,
            ManagedSlice::Owned(v) => v.as_slice(),
        }
    }
}

impl<'a, T> DerefMut for ManagedSlice<'a, T> {
    fn deref_mut(&mut self) -> &mut [T] {
        match self {
            ManagedSlice::Borrowed(s) => s,
            ManagedSlice::Owned(v) => v.as_mut_slice(),
        }
    }
}

} // verus!
