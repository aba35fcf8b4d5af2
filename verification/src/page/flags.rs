//! The typed flag builder: normalizes per-architecture flag polarity, so
//! `.write(true)` makes an entry writable whether the architecture uses a
//! read-only bit or read/write bits.

use vstd::prelude::*;

verus! {

use core::marker::PhantomData;
use crate::arch::Arch;

/// One machine word of page-entry flag bits for the architecture `A`.
pub struct PageFlags<A: Arch> {
    data: u64,
    arch: PhantomData<A>,
}

impl<A: Arch> Clone for PageFlags<A> {
    fn clone(&self) -> (r: Self)
        ensures
            r.spec_data() == self.spec_data(),
    {
        Self { data: self.data, arch: PhantomData }
    }
}

impl<A: Arch> Copy for PageFlags<A> {

}

impl<A: Arch> PageFlags<A> {
    pub closed spec fn spec_data(self) -> u64 {
        self.data
    }

    /// Flags for a data page: present, kernel-only, read-only and
    /// non-executable.
    pub fn new() -> (r: Self)
        ensures
            r.spec_data() == A::spec_entry_flag_default_page() | A::spec_entry_flag_readonly()
                | A::spec_entry_flag_no_exec(),
    {
        Self {
            data: A::entry_flag_default_page() | A::entry_flag_readonly()
                | A::entry_flag_no_exec(),
            arch: PhantomData,
        }
    }

    /// Flags for a table pointer: present, kernel-only, read-only and
    /// non-executable.
    pub fn new_table() -> (r: Self)
        ensures
            r.spec_data() == A::spec_entry_flag_default_table() | A::spec_entry_flag_readonly()
                | A::spec_entry_flag_no_exec(),
    {
        Self {
            data: A::entry_flag_default_table() | A::entry_flag_readonly()
                | A::entry_flag_no_exec(),
            arch: PhantomData,
        }
    }

    pub fn from_data(data: u64) -> (r: Self)
        ensures
            r.spec_data() == data,
    {
        Self { data, arch: PhantomData }
    }

    pub fn data(&self) -> (r: u64)
        ensures
            r == self.spec_data(),
    {
        self.data
    }

    /// Set or clear the given flag bits.
    #[must_use]
    pub fn custom_flag(self, flag: u64, value: bool) -> (r: Self)
        ensures
            r.spec_data() == if value {
                self.spec_data() | flag
            } else {
                self.spec_data() & !flag
            },
    {
        let data = if value {
            self.data | flag
        } else {
            self.data & !flag
        };
        Self { data, arch: PhantomData }
    }

    pub fn has_flag(&self, flag: u64) -> (r: bool)
        ensures
            r == (self.spec_data() & flag == flag),
    {
        self.data & flag == flag
    }

    pub fn has_present(&self) -> (r: bool)
        ensures
            r == (self.spec_data() & A::spec_entry_flag_present() == A::spec_entry_flag_present()),
    {
        self.has_flag(A::entry_flag_present())
    }

    /// Set or clear user-space access.
    #[must_use]
    pub fn user(self, value: bool) -> (r: Self)
        ensures
            r.spec_data() == if value {
                self.spec_data() | A::spec_entry_flag_user()
            } else {
                self.spec_data() & !A::spec_entry_flag_user()
            },
    {
        self.custom_flag(A::entry_flag_user(), value)
    }

    pub fn has_user(&self) -> (r: bool)
        ensures
            r == (self.spec_data() & A::spec_entry_flag_user() == A::spec_entry_flag_user()),
    {
        self.has_flag(A::entry_flag_user())
    }

    /// Set or clear writability, whichever polarity the architecture uses.
    #[must_use]
    pub fn write(self, value: bool) -> (r: Self)
        ensures
            r.spec_data() == if value {
                (self.spec_data() & !A::spec_entry_flag_readonly()) | A::spec_entry_flag_readwrite()
            } else {
                (self.spec_data() | A::spec_entry_flag_readonly()) & !A::spec_entry_flag_readwrite()
            },
    {
        self.custom_flag(A::entry_flag_readonly(), !value).custom_flag(
            A::entry_flag_readwrite(),
            value,
        )
    }

    pub fn has_write(&self) -> (r: bool)
        ensures
            r == (self.spec_data() & (A::spec_entry_flag_readonly()
                | A::spec_entry_flag_readwrite()) == A::spec_entry_flag_readwrite()),
    {
        self.data & (A::entry_flag_readonly() | A::entry_flag_readwrite())
            == A::entry_flag_readwrite()
    }

    /// Set or clear executability, whichever polarity the architecture
    /// uses.
    #[must_use]
    pub fn execute(self, value: bool) -> (r: Self)
        ensures
            r.spec_data() == if value {
                (self.spec_data() & !A::spec_entry_flag_no_exec()) | A::spec_entry_flag_exec()
            } else {
                (self.spec_data() | A::spec_entry_flag_no_exec()) & !A::spec_entry_flag_exec()
            },
    {
        self.custom_flag(A::entry_flag_no_exec(), !value).custom_flag(A::entry_flag_exec(), value)
    }

    pub fn has_execute(&self) -> (r: bool)
        ensures
            r == (self.spec_data() & (A::spec_entry_flag_no_exec() | A::spec_entry_flag_exec())
                == A::spec_entry_flag_exec()),
    {
        self.data & (A::entry_flag_no_exec() | A::entry_flag_exec()) == A::entry_flag_exec()
    }
}

} // verus!
