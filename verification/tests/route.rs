use thermos::context::Context;
use thermos::route::{RouteNode, RouteNodeType, Router};
use thermos::{Request, Response};

type Handler = fn(Request, Context) -> Response;

fn noop_handler(_: Request, _: Context) -> Response {
    Response::with_text("OK")
}

fn other_handler(_: Request, _: Context) -> Response {
    Response::with_text("other")
}

#[test]
fn test_parse_root_route() {
    let route_node = RouteNode::<Handler>::parse("/", noop_handler);

    assert_eq!(route_node, RouteNode::<Handler> {
        handler: Some(noop_handler),
        ..Default::default()
    });
}

#[test]
fn test_parse_simple_route() {
    let route_node = RouteNode::<Handler>::parse("/foo/bar", noop_handler);

    assert_eq!(route_node, RouteNode::<Handler> {
        children: vec![
            RouteNode {
                children: vec![
                    RouteNode {
                        handler: Some(noop_handler),
                        node_type: RouteNodeType::PathNode("bar".to_string()),
                        ..Default::default()
                    },
                ],
                node_type: RouteNodeType::PathNode("foo".to_string()),
                ..Default::default()
            }
        ],
        ..Default::default()
    });
}

#[test]
fn test_parse_route_with_param() {
    let route_node = RouteNode::<Handler>::parse("/foo/:bar/buzz", noop_handler);

    assert_eq!(route_node, RouteNode::<Handler> {
        children: vec![
            RouteNode {
                children: vec![
                    RouteNode {
                        children: vec![
                            RouteNode {
                                handler: Some(noop_handler),
                                node_type: RouteNodeType::PathNode("buzz".to_string()),
                                ..Default::default()
                            },
                        ],
                        node_type: RouteNodeType::ParamNode("bar".to_string()),
                        ..Default::default()
                    },
                ],
                node_type: RouteNodeType::PathNode("foo".to_string()),
                ..Default::default()
            }
        ],
        ..Default::default()
    });
}

#[test]
fn test_search_root_route() {
    let route_node = RouteNode::<Handler>::parse("/", noop_handler);

    let result = route_node.search("/");

    assert_eq!(result, Some(noop_handler as fn(Request, Context) -> Response));
}

#[test]
fn test_search_simple_route() {
    let route_node = RouteNode::<Handler>::parse("/foo/bar", noop_handler);

    let result = route_node.search("/foo/bar");

    assert_eq!(result, Some(noop_handler as fn(Request, Context) -> Response));
}

#[test]
fn test_search_route_with_param() {
    let route_node = RouteNode::<Handler>::parse("/foo/:bar/buzz", noop_handler);

    let result = route_node.search("/foo/123/buzz");

    assert_eq!(result, Some(noop_handler as fn(Request, Context) -> Response));
}

#[test]
fn test_search_not_found() {
    let route_node = RouteNode::<Handler>::parse("/foo/bar", noop_handler);

    let result = route_node.search("/foo");

    assert_eq!(result, None);
}

#[test]
fn single_route_matches_segment_for_segment() {
    let node = RouteNode::<u32>::parse("/a/:x/c", 7);
    assert_eq!(node.search("/a/anything/c"), Some(7));
    assert_eq!(node.search("/a//c"), Some(7));
    assert_eq!(node.search("/a/b/c/"), None);
    assert_eq!(node.search("/a/b"), None);
    assert_eq!(node.search("/b/x/c"), None);
    assert_eq!(node.search("/"), None);
    // The first segment of the searched path is not looked at.
    assert_eq!(node.search("zzz/a/q/c"), Some(7));
}

#[test]
fn route_without_slash_sits_on_the_root() {
    let node = RouteNode::<u32>::parse("foo", 3);
    assert_eq!(node.handler, Some(3));
    assert!(node.children.is_empty());
    assert_eq!(node.search("/"), Some(3));
    assert_eq!(node.search("foo"), None);
    // Trailing slash makes an empty last segment.
    let node = RouteNode::<u32>::parse("/foo/", 4);
    assert_eq!(node.search("/foo/"), Some(4));
    assert_eq!(node.search("/foo"), None);
}

#[test]
fn router_adds_and_finds_routes() {
    let mut router: Router<u32> = Router::new();
    assert_eq!(router.search("/"), None);
    router.add_handler("/users/:id", 1);
    router.add_handler("/users/me", 2);
    router.add_handler("/", 3);
    router.add_handler("/files/readme", 4);
    assert_eq!(router.search("/users/42"), Some(1));
    // The parameter route was added first, so it is found first.
    assert_eq!(router.search("/users/me"), Some(1));
    assert_eq!(router.search("/"), Some(3));
    assert_eq!(router.search("/files/readme"), Some(4));
    assert_eq!(router.search("/files"), None);
    // A second handler for the same route replaces the first.
    router.add_handler("/files/readme", 5);
    assert_eq!(router.search("/files/readme"), Some(5));
}

#[test]
fn adding_to_an_empty_tree_builds_the_single_route() {
    let mut node = RouteNode::<u32>::default();
    node.add_handler("/foo/:bar/buzz", 9);
    assert_eq!(node, RouteNode::<u32>::parse("/foo/:bar/buzz", 9));
    let mut node = RouteNode::<u32>::default();
    node.add_handler("/", 9);
    assert_eq!(node, RouteNode::<u32>::parse("/", 9));
}

#[test]
fn adding_reuses_existing_nodes() {
    let mut node = RouteNode::<u32>::parse("/a/b", 1);
    node.add_handler("/a/c", 2);
    assert_eq!(node.children.len(), 1);
    assert_eq!(node.children[0].children.len(), 2);
    assert_eq!(node.search("/a/b"), Some(1));
    assert_eq!(node.search("/a/c"), Some(2));
    assert_eq!(node.search("/a"), None);
    node.add_handler("/a", 3);
    assert_eq!(node.search("/a"), Some(3));
}

#[test]
fn node_types_compare_by_contents() {
    let a = RouteNodeType::PathNode("x".to_string());
    assert!(a.same_as(&RouteNodeType::PathNode("x".to_string())));
    assert!(!a.same_as(&RouteNodeType::ParamNode("x".to_string())));
    assert!(RouteNodeType::RootNode.same_as(&RouteNodeType::RootNode));
}

#[test]
fn cloned_tree_is_the_same_tree() {
    let mut node = RouteNode::<u32>::parse("/a/:b", 1);
    node.add_handler("/c", 2);
    let copy = node.clone();
    assert_eq!(copy, node);
    assert_eq!(copy.search("/c"), Some(2));
}

#[test]
fn parse_of_a_path_with_a_trailing_slash() {
    let node = RouteNode::<u32>::parse("/foo/", 6);
    assert_eq!(node.node_type, RouteNodeType::RootNode);
    assert_eq!(node.handler, None);
    assert_eq!(node.children.len(), 1);
    let foo = &node.children[0];
    assert_eq!(foo.node_type, RouteNodeType::PathNode("foo".to_string()));
    assert_eq!(foo.handler, None);
    assert_eq!(foo.children.len(), 1);
    let empty = &foo.children[0];
    assert_eq!(empty.node_type, RouteNodeType::PathNode("".to_string()));
    assert_eq!(empty.handler, Some(6));
    assert!(empty.children.is_empty());
}

#[test]
fn adding_keeps_old_nodes_first_and_siblings_distinct() {
    let mut node = RouteNode::<u32>::default();
    node.add_handler("/a/b", 1);
    node.add_handler("/a/:x", 2);
    node.add_handler("/a/b", 3);
    node.add_handler("/c", 4);
    assert_eq!(node.children.len(), 2);
    assert_eq!(node.children[0].node_type, RouteNodeType::PathNode("a".to_string()));
    assert_eq!(node.children[1].node_type, RouteNodeType::PathNode("c".to_string()));
    assert_eq!(node.children[1].handler, Some(4));
    let a = &node.children[0];
    assert_eq!(a.handler, None);
    assert_eq!(a.children.len(), 2);
    assert_eq!(a.children[0].node_type, RouteNodeType::PathNode("b".to_string()));
    assert_eq!(a.children[0].handler, Some(3));
    assert_eq!(a.children[1].node_type, RouteNodeType::ParamNode("x".to_string()));
    assert_eq!(a.children[1].handler, Some(2));
}

#[test]
fn search_after_several_routes_finds_the_last_handler_of_a_matching_route() {
    let mut router: Router<u32> = Router::new();
    router.add_handler("/x/y", 1);
    router.add_handler("/x/:p", 2);
    router.add_handler("/x/y", 3);
    assert_eq!(router.search("/x/y"), Some(3));
    assert_eq!(router.search("/x/z"), Some(2));
    assert_eq!(router.search("/x"), None);
    assert_eq!(router.search("/x/y/z"), None);
    assert_eq!(router.search("/"), None);
}
