//! The application's routes: the static ones it always serves, and the
//! descriptions of runtime-configured links.

use vstd::prelude::*;

verus! {

/// Static routes of the application.
#[derive(Debug, Clone, Copy, PartialEq, Eq, Hash)]
pub enum Route {
    Home,
    Certificates,
    HealthCheck,
}

impl Route {
    /// The path a route is served under.
    pub open spec fn spec_path(self) -> Seq<char> {
        match self {
            Route::Home => "/"@,
            Route::Certificates => "/api/ca"@,
            Route::HealthCheck => "/healthcheck"@,
        }
    }

    /// The path this route is served under.
    pub fn as_str(&self) -> (r: &'static str)
        ensures
            r@ == self.spec_path(),
    {
        match self {
            Route::Home => "/",
            Route::Certificates => "/api/ca",
            Route::HealthCheck => "/healthcheck",
        }
    }
}

/// A runtime-configured link shown on the landing page.
#[derive(Debug, Clone, PartialEq, Eq)]
pub struct RouteInfo {
    pub url: String,
    pub description: String,
}

} // verus!
