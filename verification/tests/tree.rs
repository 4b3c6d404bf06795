use bis_codec::io::compression::lzss::format::{LZSS_FILL, LZSS_NODE_NULL, LZSS_WINDOW_SIZE};
use bis_codec::io::compression::lzss::tree::LzssContext;

const ROOT: usize = LZSS_WINDOW_SIZE as usize + 1;

fn context_with(text: &[u8]) -> LzssContext {
    let mut ctx = LzssContext::new();
    ctx.text_buffer[..text.len()].copy_from_slice(text);
    ctx
}

#[test]
fn new_context_is_blank() {
    let ctx = LzssContext::new();
    assert!(ctx.text_buffer.iter().all(|&b| b == LZSS_FILL));
    assert!(ctx.left.iter().all(|&l| l == LZSS_NODE_NULL));
    assert!(ctx.right.iter().all(|&l| l == LZSS_NODE_NULL));
    assert!(ctx.parent.iter().all(|&l| l == LZSS_NODE_NULL));
    assert_eq!(ctx.match_length, 0);
    assert_eq!(ctx.match_position, 0);
    assert_eq!(ctx.text_buffer.len(), 4096 + 17);
    assert_eq!(ctx.left.len(), 4097);
    assert_eq!(ctx.right.len(), 4096 + 257);
}

#[test]
fn first_node_hangs_on_its_root() {
    let mut ctx = context_with(b"abcdefgh");
    ctx.insert_node(0);
    let root = ROOT + b'a' as usize;
    assert_eq!(ctx.right[root], 0);
    assert_eq!(ctx.parent[0], root as u32);
    assert_eq!(ctx.left[0], LZSS_NODE_NULL);
    assert_eq!(ctx.right[0], LZSS_NODE_NULL);
    assert_eq!(ctx.match_length, 0);
}

#[test]
fn search_goes_right_for_the_larger_byte() {
    //                       0       8       16
    let mut ctx = context_with(b"abc.....abd.....abb.....");
    ctx.insert_node(0);
    ctx.insert_node(8);
    assert_eq!(ctx.right[0], 8);
    assert_eq!(ctx.parent[8], 0);
    assert_eq!((ctx.match_position, ctx.match_length), (0, 2));
    ctx.insert_node(16);
    assert_eq!(ctx.left[0], 16);
    assert_eq!(ctx.parent[16], 0);
    assert_eq!((ctx.match_position, ctx.match_length), (0, 2));
}

#[test]
fn the_first_longest_match_on_the_path_is_kept() {
    let mut ctx = context_with(b"abcx....abcy....abcz....abcy1...");
    ctx.insert_node(0);
    ctx.insert_node(8);
    ctx.insert_node(16);
    // abcy1 agrees with abcx over 3 places, then with abcy over 4
    ctx.insert_node(24);
    assert_eq!((ctx.match_position, ctx.match_length), (8, 4));
}

#[test]
fn a_full_match_replaces_the_older_node() {
    let mut text = vec![b'q'; 64];
    text[40] = b'r';
    let mut ctx = context_with(&text);
    ctx.insert_node(0);
    ctx.insert_node(1);
    // positions 0 and 1 both hold eighteen 'q': 1 takes the place of 0
    let root = ROOT + b'q' as usize;
    assert_eq!((ctx.match_position, ctx.match_length), (0, 18));
    assert_eq!(ctx.right[root], 1);
    assert_eq!(ctx.parent[1], root as u32);
    assert_eq!(ctx.parent[0], LZSS_NODE_NULL);
}

#[test]
fn deleting_a_leaf_clears_its_link() {
    let mut ctx = context_with(b"abc.....abd.....");
    ctx.insert_node(0);
    ctx.insert_node(8);
    ctx.delete_node(8);
    assert_eq!(ctx.right[0], LZSS_NODE_NULL);
    assert_eq!(ctx.parent[8], LZSS_NODE_NULL);
    assert_eq!(ctx.parent[0], (ROOT + b'a' as usize) as u32);
}

#[test]
fn deleting_a_node_with_one_child_lifts_the_child() {
    let mut ctx = context_with(b"abc.....abd.....abe.....");
    ctx.insert_node(0);
    ctx.insert_node(8);
    ctx.insert_node(16);
    assert_eq!(ctx.right[8], 16);
    ctx.delete_node(8);
    assert_eq!(ctx.right[0], 16);
    assert_eq!(ctx.parent[16], 0);
    assert_eq!(ctx.parent[8], LZSS_NODE_NULL);
}

#[test]
fn deleting_a_node_with_two_children_lifts_its_predecessor() {
    //                        0       8       16      24      32
    let mut ctx = context_with(b"am......ad......at......ab......af......");
    for node in [0u32, 8, 16, 24, 32] {
        ctx.insert_node(node);
    }
    // 0 has left 8 (with left 24 and right 32) and right 16
    assert_eq!((ctx.left[0], ctx.right[0]), (8, 16));
    assert_eq!((ctx.left[8], ctx.right[8]), (24, 32));
    ctx.delete_node(0);
    // 32, the rightmost node of the left subtree, takes the place of 0
    let root = ROOT + b'a' as usize;
    assert_eq!(ctx.right[root], 32);
    assert_eq!(ctx.parent[32], root as u32);
    assert_eq!((ctx.left[32], ctx.right[32]), (8, 16));
    assert_eq!((ctx.parent[8], ctx.parent[16]), (32, 32));
    assert_eq!((ctx.left[8], ctx.right[8]), (24, LZSS_NODE_NULL));
    assert_eq!(ctx.parent[0], LZSS_NODE_NULL);
}

#[test]
fn deleting_a_position_outside_the_trees_changes_nothing() {
    let mut ctx = context_with(b"abc.....abd.....");
    ctx.insert_node(0);
    ctx.delete_node(8);
    ctx.delete_node(8);
    assert_eq!(ctx.parent[0], (ROOT + b'a' as usize) as u32);
    assert_eq!(ctx.right[0], LZSS_NODE_NULL);
}

#[test]
fn one_step_of_the_search_moves_or_attaches() {
    let mut ctx = context_with(b"abc.....abd.....");
    ctx.insert_node(0);
    let mut p = (ROOT + b'a' as usize) as u32;
    assert!(!ctx.insertion_should_return(8, &mut p, true));
    assert_eq!(p, 0);
    assert!(ctx.insertion_should_return(8, &mut p, true));
    assert_eq!(p, 0);
    assert_eq!(ctx.right[0], 8);
    assert_eq!(ctx.parent[8], 0);
}

fn agree(text: &[u8], a: usize, b: usize) -> u32 {
    let mut i = 0;
    while i < 18 && text[a + i] == text[b + i] {
        i += 1;
    }
    i as u32
}

#[test]
fn the_match_is_a_longest_one_of_the_tree() {
    // a text of few letters, so that long matches are common
    let mut text = vec![0u8; 600];
    let mut x: u32 = 99;
    for b in text.iter_mut() {
        x = x.wrapping_mul(1103515245).wrapping_add(12345);
        *b = b"ab"[((x >> 16) % 2) as usize];
    }
    let mut ctx = context_with(&text);
    let mut inside: Vec<usize> = Vec::new();
    for node in 0..500usize {
        // keep at most 40 positions in the trees: the oldest leaves first
        if inside.len() == 40 {
            let oldest = inside.remove(0);
            ctx.delete_node(oldest as u32);
            assert_eq!(ctx.parent[oldest], LZSS_NODE_NULL);
        }
        // what is still in the trees, which a full match may have thinned
        inside.retain(|&y| ctx.parent[y] != LZSS_NODE_NULL);
        let best = inside
            .iter()
            .filter(|&&y| text[y] == text[node])
            .map(|&y| agree(&text, node, y))
            .max()
            .unwrap_or(0);
        ctx.insert_node(node as u32);
        assert_eq!(ctx.match_length, best);
        if best > 0 {
            let at = ctx.match_position as usize;
            assert!(inside.contains(&at));
            assert_eq!(agree(&text, node, at), best);
        }
        assert_ne!(ctx.parent[node], LZSS_NODE_NULL);
        inside.push(node);
    }
}
