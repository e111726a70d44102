//! The scoring methods and their command-line names.
use vstd::prelude::*;
use vstd::string::StringExecFns;

use crate::text::chars_of;

verus! {

/// A neighborhood-overlap score.
#[derive(Debug, Clone, Copy, PartialEq, Eq, Structural)]
pub enum Method {
    Jaccard,
    AdamicAdar,
    ResourceAllocation,
    PreferentialAttachment,
    CommonNeighborCentrality,
}

/// The name by which a method is chosen.
pub open spec fn method_name(m: Method) -> Seq<char> {
    match m {
        Method::Jaccard => "jaccard"@,
        Method::AdamicAdar => "adamic-adar"@,
        Method::ResourceAllocation => "resource-allocation"@,
        Method::PreferentialAttachment => "preferential-attachment"@,
        Method::CommonNeighborCentrality => "common-neighbor-centrality"@,
    }
}

/// The message for a name that is no method's.
pub open spec fn unknown_method_message(name: Seq<char>) -> Seq<char> {
    "unknown method '"@ + name + "' (expected jaccard, adamic-adar, resource-allocation, preferential-attachment, or common-neighbor-centrality)"@
}

fn same_chars(a: &Vec<char>, b: &Vec<char>) -> (r: bool)
    ensures
        r == (a@ == b@),
{
    if a.len() != b.len() {
        return false;
    }
    for i in 0..a.len()
        invariant
            a@.len() == b@.len(),
            forall|k: int| 0 <= k < i ==> a@[k] == b@[k],
    {
        if a[i] != b[i] {
            return false;
        }
    }
    assert(a@ =~= b@);
    true
}

impl Method {
    /// The method whose name is `s`, or the message that names the
    /// methods there are.
    pub fn parse(s: &str) -> (r: Result<Method, String>)
        ensures
            match r {
                Ok(m) => s@ == method_name(m),
                Err(e) => (forall|m: Method| s@ != #[trigger] method_name(m)) && e@
                    == unknown_method_message(s@),
            },
    {
        let cs = chars_of(s);
        if same_chars(&cs, &chars_of("jaccard")) {
            Ok(Method::Jaccard)
        } else if same_chars(&cs, &chars_of("adamic-adar")) {
            Ok(Method::AdamicAdar)
        } else if same_chars(&cs, &chars_of("resource-allocation")) {
            Ok(Method::ResourceAllocation)
        } else if same_chars(&cs, &chars_of("preferential-attachment")) {
            Ok(Method::PreferentialAttachment)
        } else if same_chars(&cs, &chars_of("common-neighbor-centrality")) {
            Ok(Method::CommonNeighborCentrality)
        } else {
            let mut e = "unknown method '".to_owned();
            e.append(s);
            e.append(
                "' (expected jaccard, adamic-adar, resource-allocation, preferential-attachment, or common-neighbor-centrality)",
            );
            assert forall|m: Method| s@ != #[trigger] method_name(m) by {
                match m {
                    Method::Jaccard => {},
                    Method::AdamicAdar => {},
                    Method::ResourceAllocation => {},
                    Method::PreferentialAttachment => {},
                    Method::CommonNeighborCentrality => {},
                }
            }
            Err(e)
        }
    }
}

} // verus!
