//! From typed handlers to JSON-RPC responses: what a method call answers
//! once its parameters were read and its handler has finished, and when a
//! notification reaches its handler.

use std::fmt::Display;
use std::marker::PhantomData;
use vstd::prelude::*;
use vstd::std_specs::convert::FromSpecImpl;
use vstd::string::{to_string_from_display_ensures, StringExecFns};

verus! {

/// `serde_json::Error`, taken as it is: nothing inside it is read here, and
/// its text is had from its `Display`.
#[verifier::external_type_specification]
#[verifier::external_body]
pub struct ExJsonError(serde_json::Error);

/// The kind of an error that answers a call.
#[derive(Debug, PartialEq, Eq, Clone, Copy)]
pub enum ErrorCode {
    /// The caller's parameters do not have the shape that the method expects.
    InvalidParams,
    /// The handler reported a failure.
    InternalError,
}

/// The error that answers a call: its kind, a message for the reader and,
/// where there is any, data.
#[derive(Debug, PartialEq, Eq)]
pub struct ResponseError<D> {
    pub code: ErrorCode,
    pub message: String,
    pub data: Option<D>,
}

/// What a handler reports when it fails: a message for the reader and,
/// where it has any, data of its own.
pub struct ServerError<E> {
    pub message: String,
    pub data: Option<E>,
}

impl<E, D> From<E> for ServerError<D> where E: Display {
    /// An error without data, with the text of `err` as its message.
    fn from(err: E) -> (error: ServerError<D>)
        ensures
            error.data is None,
            to_string_from_display_ensures::<E>(&err, error.message),
    {
        ServerError { message: err.to_string(), data: None }
    }
}

impl<E, D> FromSpecImpl<E> for ServerError<D> where E: Display {
    open spec fn obeys_from_spec() -> bool {
        false
    }

    open spec fn from_spec(err: E) -> Self {
        arbitrary()
    }
}

/// A handler of method calls with parameters of type `P`.
pub trait LanguageServerCommand<P>: Send + Sync + 'static {
    /// What the handler answers with when it succeeds.
    type Output;

    /// The data that the handler adds to its errors.
    type Error;

    /// What `execute` hands back at once: the result that is still to come,
    /// an `Output` or a `ServerError` with data of type `Error`.
    type Future;

    /// The parameters that the handler can be called with: all of them,
    /// unless a handler says otherwise.
    open spec fn accepts(&self, param: P) -> bool {
        true
    }

    /// Starts the work on a call.
    fn execute(&self, param: P) -> (future: Self::Future)
        requires
            self.accepts(param),
    ;

    /// The data for the answer to a call whose parameters could not be
    /// read. Unless a handler says otherwise, there is none.
    fn invalid_params(&self) -> (data: Option<Self::Error>)
        default_ensures
            data is None,
    {
        None
    }
}

/// A handler of notifications with parameters of type `P`.
pub trait LanguageServerNotification<P>: Send + Sync + 'static {
    /// The parameters that the handler can be called with: all of them,
    /// unless a handler says otherwise.
    open spec fn accepts(&self, param: P) -> bool {
        true
    }

    fn execute(&self, param: P)
        requires
            self.accepts(param),
    ;
}

impl<F, P> LanguageServerNotification<P> for F where F: Fn(P) + Send + Sync + 'static {
    open spec fn accepts(&self, param: P) -> bool {
        call_requires(*self, (param,))
    }

    fn execute(&self, param: P) {
        self(param)
    }
}

/// A function is a handler that accepts what the function can be called
/// with.
pub proof fn lemma_function_accepts<F, P>(f: F, param: P) where F: Fn(P) + Send + Sync + 'static
    ensures
        f.accepts(param) == call_requires(f, (param,)),
{
}

/// A handler bound to the type of the parameters that it expects.
pub struct ServerCommand<T, P>(pub T, PhantomData<P>);

impl<T, P> ServerCommand<T, P> {
    /// The handler that is bound.
    pub closed spec fn handler(&self) -> T {
        self.0
    }

    /// Binds the handler of a method.
    pub fn method(command: T) -> (bound: ServerCommand<T, P>) where T: LanguageServerCommand<P>
        ensures
            bound.handler() == command,
    {
        ServerCommand(command, PhantomData)
    }

    /// Binds the handler of a notification.
    pub fn notification(command: T) -> (bound: ServerCommand<T, P>) where
        T: LanguageServerNotification<P>,

        ensures
            bound.handler() == command,
    {
        ServerCommand(command, PhantomData)
    }

    /// Hands a call to its handler where its parameters could be read, and
    /// gives what the handler handed back. A call whose parameters could not
    /// be read is answered at once, with the reason and with the data that
    /// the handler has for such answers.
    pub fn call(&self, parsed: Result<P, serde_json::Error>) -> (r: Result<
        T::Future,
        ResponseError<T::Error>,
    >) where T: LanguageServerCommand<P>
        requires
            parsed matches Ok(param) ==> self.handler().accepts(param),
        ensures
            parsed matches Ok(param) ==> r matches Ok(future) && call_ensures(
                T::execute,
                (&self.handler(), param),
                future,
            ),
            parsed matches Err(err) ==> r matches Err(error) && error.code
                == ErrorCode::InvalidParams && call_ensures(
                T::invalid_params,
                (&self.handler(),),
                error.data,
            ) && exists|reason: String| #[trigger]
                to_string_from_display_ensures::<serde_json::Error>(&err, reason) && error.message@
                    == invalid_params_prefix() + reason@,
    {
        match parsed {
            Ok(param) => Ok(self.0.execute(param)),
            Err(err) => Err(rejection(&err, self.0.invalid_params())),
        }
    }

    /// Hands a notification to its handler where its parameters could be
    /// read. A notification whose parameters could not be read is dropped:
    /// nobody waits for an answer. Tells whether the handler ran.
    pub fn execute<E>(&self, parsed: Result<P, E>) -> (delivered: bool) where
        T: LanguageServerNotification<P>,

        requires
            parsed matches Ok(param) ==> self.handler().accepts(param),
        ensures
            delivered == parsed is Ok,
            parsed matches Ok(param) ==> call_ensures(T::execute, (&self.handler(), param), ()),
    {
        match parsed {
            Ok(param) => {
                self.0.execute(param);
                true
            },
            Err(_) => false,
        }
    }
}

/// The words that open the message of every answer to unreadable parameters.
pub open spec fn invalid_params_prefix() -> Seq<char> {
    "Invalid params: "@
}

/// The answer to a call whose parameters could not be read for the reason
/// `reason`: an error of the kind "invalid parameters" that names the reason
/// and carries `data`.
pub fn invalid_params<D>(reason: &str, data: Option<D>) -> (error: ResponseError<D>)
    ensures
        error.code == ErrorCode::InvalidParams,
        error.message@ == invalid_params_prefix() + reason@,
        error.data == data,
{
    let message = String::from_str("Invalid params: ").concat(reason);
    ResponseError { code: ErrorCode::InvalidParams, message, data }
}

/// The answer to a call whose parameters `serde_json` could not read.
pub fn rejection<D>(err: &serde_json::Error, data: Option<D>) -> (error: ResponseError<D>)
    ensures
        error.code == ErrorCode::InvalidParams,
        error.data == data,
        exists|reason: String| #[trigger]
            to_string_from_display_ensures::<serde_json::Error>(err, reason) && error.message@
                == invalid_params_prefix() + reason@,
{
    let reason = err.to_string();
    invalid_params(reason.as_str(), data)
}

/// The answer to a call whose handler failed with `failure`: an error of the
/// kind "internal error" with the handler's message and data.
pub fn internal_error<D>(failure: ServerError<D>) -> (error: ResponseError<D>)
    ensures
        error.code == ErrorCode::InternalError,
        error.message == failure.message,
        error.data == failure.data,
{
    ResponseError { code: ErrorCode::InternalError, message: failure.message, data: failure.data }
}

/// The answer to a call whose handler finished with `outcome`.
pub fn response<T, D>(outcome: Result<T, ServerError<D>>) -> (answer: Result<T, ResponseError<D>>)
    ensures
        match outcome {
            Ok(value) => answer == Ok::<T, ResponseError<D>>(value),
            Err(failure) => answer matches Err(error) && error.code == ErrorCode::InternalError
                && error.message == failure.message && error.data == failure.data,
        },
{
    match outcome {
        Ok(value) => Ok(value),
        Err(failure) => Err(internal_error(failure)),
    }
}

} // verus!
