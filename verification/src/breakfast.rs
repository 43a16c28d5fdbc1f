use vstd::prelude::*;

verus! {

/// A breakfast order: the toast may be changed by the customer, the
/// seasonal fruit is chosen by the kitchen and stays private.
pub struct Breakfast {
    pub toast: String,
    seasonal_fruit: String,
}

impl Breakfast {
    /// The fruit that the kitchen picked, visible to contracts only.
    pub closed spec fn fruit(&self) -> Seq<char> {
        self.seasonal_fruit@
    }

    /// The toast, as contracts see it.
    pub closed spec fn toast_view(&self) -> Seq<char> {
        self.toast@
    }

    /// A summer breakfast: the requested toast with peaches.
    pub fn summer(toast: &str) -> (b: Breakfast)
        ensures
            b.toast_view() == toast@,
            b.fruit() == "peaches"@,
    {
        Breakfast { toast: toast.to_owned(), seasonal_fruit: "peaches".to_owned() }
    }
}

} // verus!
