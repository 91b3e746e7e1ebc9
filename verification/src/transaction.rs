//! The options that a new transaction is started with.

use vstd::prelude::*;
use crate::error::{opt_view, Error};
use crate::json::{
    lemma_lookups_with, lemma_plain_round_trip, lookup, members_view, put_opt, read_string,
    string_json, string_of, string_tree, with, Json, JsonView, Members,
};
use crate::parse::lemma_trees_well_formed;
use crate::wire::{
    lemma_member_round_trip, lemma_members_well_formed, member_decode, member_encode, read_member,
    write_member, Wire,
};

verus! {

/// Options for a transaction that reads and writes documents.
#[derive(Debug, Clone, PartialEq)]
pub struct ReadWrite {
    /// An earlier transaction to retry, if any.
    pub retry_transaction: Option<String>,
}

/// The model of the options of a transaction that reads and writes.
pub ghost struct ReadWriteView {
    pub retry_transaction: Option<Seq<char>>,
}

impl View for ReadWrite {
    type V = ReadWriteView;

    open spec fn view(&self) -> ReadWriteView {
        ReadWriteView { retry_transaction: opt_view(self.retry_transaction) }
    }
}

impl Wire for ReadWrite {
    /// The member `retryTransaction`, where there is a transaction to retry.
    open spec fn encode(v: ReadWriteView) -> Result<JsonView, Error> {
        Ok(
            JsonView::Object(
                with(Seq::empty(), "retryTransaction"@, string_tree(v.retry_transaction)),
            ),
        )
    }

    open spec fn decode(j: JsonView) -> Result<ReadWriteView, Error> {
        match j {
            JsonView::Object(m) => match string_of(
                lookup(m, "retryTransaction"@),
                Error::InvalidTransactionOptions,
            ) {
                Err(e) => Err(e),
                Ok(retry_transaction) => Ok(ReadWriteView { retry_transaction: retry_transaction }),
            },
            _ => Err(Error::InvalidTransactionOptions),
        }
    }

    fn to_json(&self) -> (r: Result<Json, Error>) {
        let mut m: Vec<(String, Json)> = Vec::new();
        assert(members_view(m@) =~= Seq::<(Seq<char>, JsonView)>::empty());
        put_opt(&mut m, "retryTransaction", string_json(&self.retry_transaction));
        Ok(Json::Object(m))
    }

    fn from_json(j: &Json) -> (r: Result<ReadWrite, Error>) {
        match j {
            Json::Object(_) => {
                match read_string(j.member("retryTransaction"), Error::InvalidTransactionOptions) {
                    Ok(x) => Ok(ReadWrite { retry_transaction: x }),
                    Err(e) => Err(e),
                }
            },
            _ => Err(Error::InvalidTransactionOptions),
        }
    }

    proof fn lemma_round_trip(v: ReadWriteView) {
        lemma_lookups_with(Seq::empty(), "retryTransaction"@, string_tree(v.retry_transaction));
        lemma_plain_round_trip(Error::InvalidTransactionOptions);
    }

    proof fn lemma_well_formed(v: ReadWriteView) {
        lemma_trees_well_formed();
    }
}

/// Options for a transaction that only reads documents.
#[derive(Debug, Clone, PartialEq)]
pub struct ReadOnly {
    /// The time at which the documents are read. The service refuses a time
    /// that lies more than 60 seconds in the past; nothing here reads a
    /// clock, so the caller sees to that.
    pub read_time: Option<String>,
}

/// The model of the options of a transaction that only reads.
pub ghost struct ReadOnlyView {
    pub read_time: Option<Seq<char>>,
}

impl View for ReadOnly {
    type V = ReadOnlyView;

    open spec fn view(&self) -> ReadOnlyView {
        ReadOnlyView { read_time: opt_view(self.read_time) }
    }
}

impl Wire for ReadOnly {
    /// The member `readTime`, where a time is set.
    open spec fn encode(v: ReadOnlyView) -> Result<JsonView, Error> {
        Ok(JsonView::Object(with(Seq::empty(), "readTime"@, string_tree(v.read_time))))
    }

    open spec fn decode(j: JsonView) -> Result<ReadOnlyView, Error> {
        match j {
            JsonView::Object(m) => match string_of(
                lookup(m, "readTime"@),
                Error::InvalidTransactionOptions,
            ) {
                Err(e) => Err(e),
                Ok(read_time) => Ok(ReadOnlyView { read_time: read_time }),
            },
            _ => Err(Error::InvalidTransactionOptions),
        }
    }

    fn to_json(&self) -> (r: Result<Json, Error>) {
        let mut m: Vec<(String, Json)> = Vec::new();
        assert(members_view(m@) =~= Seq::<(Seq<char>, JsonView)>::empty());
        put_opt(&mut m, "readTime", string_json(&self.read_time));
        Ok(Json::Object(m))
    }

    fn from_json(j: &Json) -> (r: Result<ReadOnly, Error>) {
        match j {
            Json::Object(_) => {
                match read_string(j.member("readTime"), Error::InvalidTransactionOptions) {
                    Ok(x) => Ok(ReadOnly { read_time: x }),
                    Err(e) => Err(e),
                }
            },
            _ => Err(Error::InvalidTransactionOptions),
        }
    }

    proof fn lemma_round_trip(v: ReadOnlyView) {
        lemma_lookups_with(Seq::empty(), "readTime"@, string_tree(v.read_time));
        lemma_plain_round_trip(Error::InvalidTransactionOptions);
    }

    proof fn lemma_well_formed(v: ReadOnlyView) {
        lemma_trees_well_formed();
    }
}

/// Options for creating a new transaction: one of the two modes.
#[derive(Debug, Clone, PartialEq)]
pub struct TransactionOptions {
    /// The transaction reads and writes.
    pub read_write: Option<ReadWrite>,
    /// The transaction only reads.
    pub read_only: Option<ReadOnly>,
}

/// The model of the options of a transaction.
pub ghost struct TransactionOptionsView {
    pub read_write: Option<ReadWriteView>,
    pub read_only: Option<ReadOnlyView>,
}

impl View for TransactionOptions {
    type V = TransactionOptionsView;

    open spec fn view(&self) -> TransactionOptionsView {
        TransactionOptionsView {
            read_write: opt_view(self.read_write),
            read_only: opt_view(self.read_only),
        }
    }
}

impl TransactionOptionsView {
    /// Exactly one of the two modes is set.
    pub open spec fn one_mode(self) -> bool {
        (self.read_write is Some) != (self.read_only is Some)
    }

    /// `InvalidTransactionOptions` where both modes are set or neither.
    pub open spec fn check(self) -> Result<(), Error> {
        if self.one_mode() {
            Ok(())
        } else {
            Err(Error::InvalidTransactionOptions)
        }
    }

    /// The members of the tree: `readWrite` and `readOnly`, each where the mode is set.
    pub open spec fn members(self) -> Members {
        with(
            with(Seq::empty(), "readWrite"@, member_encode::<ReadWrite>(self.read_write)->Ok_0),
            "readOnly"@,
            member_encode::<ReadOnly>(self.read_only)->Ok_0,
        )
    }
}

impl Wire for TransactionOptions {
    /// The member `readWrite` or the member `readOnly`; where both modes are
    /// set or neither, `InvalidTransactionOptions`.
    open spec fn encode(v: TransactionOptionsView) -> Result<JsonView, Error> {
        match v.check() {
            Err(e) => Err(e),
            Ok(_) => Ok(JsonView::Object(v.members())),
        }
    }

    /// The options that a tree stands for; a tree that names both modes or
    /// neither is refused as the options themselves would be.
    open spec fn decode(j: JsonView) -> Result<TransactionOptionsView, Error> {
        match j {
            JsonView::Object(m) => match member_decode::<ReadWrite>(lookup(m, "readWrite"@)) {
                Err(e) => Err(e),
                Ok(read_write) => match member_decode::<ReadOnly>(lookup(m, "readOnly"@)) {
                    Err(e) => Err(e),
                    Ok(read_only) => {
                        let v = TransactionOptionsView {
                            read_write: read_write,
                            read_only: read_only,
                        };
                        match v.check() {
                            Err(e) => Err(e),
                            Ok(_) => Ok(v),
                        }
                    },
                },
            },
            _ => Err(Error::InvalidTransactionOptions),
        }
    }

    fn to_json(&self) -> (r: Result<Json, Error>) {
        if self.read_write.is_some() == self.read_only.is_some() {
            return Err(Error::InvalidTransactionOptions);
        }
        let read_write = match write_member(&self.read_write) {
            Ok(x) => x,
            Err(e) => {
                return Err(e);
            },
        };
        let read_only = match write_member(&self.read_only) {
            Ok(x) => x,
            Err(e) => {
                return Err(e);
            },
        };
        let mut m: Vec<(String, Json)> = Vec::new();
        assert(members_view(m@) =~= Seq::<(Seq<char>, JsonView)>::empty());
        put_opt(&mut m, "readWrite", read_write);
        put_opt(&mut m, "readOnly", read_only);
        Ok(Json::Object(m))
    }

    fn from_json(j: &Json) -> (r: Result<TransactionOptions, Error>) {
        match j {
            Json::Object(_) => {
                let read_write = match read_member::<ReadWrite>(j.member("readWrite")) {
                    Ok(x) => x,
                    Err(e) => {
                        return Err(e);
                    },
                };
                let read_only = match read_member::<ReadOnly>(j.member("readOnly")) {
                    Ok(x) => x,
                    Err(e) => {
                        return Err(e);
                    },
                };
                if read_write.is_some() == read_only.is_some() {
                    return Err(Error::InvalidTransactionOptions);
                }
                Ok(TransactionOptions { read_write: read_write, read_only: read_only })
            },
            _ => Err(Error::InvalidTransactionOptions),
        }
    }

    proof fn lemma_round_trip(v: TransactionOptionsView) {
        reveal_strlit("readWrite");
        reveal_strlit("readOnly");
        assert("readWrite"@.len() == 9 && "readOnly"@.len() == 8);
        let read_write = member_encode::<ReadWrite>(v.read_write)->Ok_0;
        let read_only = member_encode::<ReadOnly>(v.read_only)->Ok_0;
        lemma_lookups_with(Seq::empty(), "readWrite"@, read_write);
        lemma_lookups_with(with(Seq::empty(), "readWrite"@, read_write), "readOnly"@, read_only);
        lemma_lookups_with(Seq::empty(), "readOnly"@, None);
        lemma_member_round_trip::<ReadWrite>(Error::InvalidTransactionOptions);
        lemma_member_round_trip::<ReadOnly>(Error::InvalidTransactionOptions);
    }

    proof fn lemma_well_formed(v: TransactionOptionsView) {
        lemma_trees_well_formed();
        lemma_members_well_formed::<ReadWrite>();
        lemma_members_well_formed::<ReadOnly>();
    }
}

impl Default for ReadWrite {
    /// The options without a transaction to retry.
    fn default() -> (r: ReadWrite)
        ensures
            r@ == (ReadWriteView { retry_transaction: None }),
    {
        ReadWrite {
            retry_transaction: None,
        }
    }
}

impl Default for ReadOnly {
    /// The options without a time.
    fn default() -> (r: ReadOnly)
        ensures
            r@ == (ReadOnlyView { read_time: None }),
    {
        ReadOnly {
            read_time: None,
        }
    }
}

impl Default for TransactionOptions {
    /// The options that set no mode.
    fn default() -> (r: TransactionOptions)
        ensures
            r@ == (TransactionOptionsView { read_write: None, read_only: None }),
    {
        TransactionOptions {
            read_write: None,
            read_only: None,
        }
    }
}

} // verus!
