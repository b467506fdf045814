use classic_structures::linked_list::LinkedList;
use classic_structures::visitor::{Visitor, VisitorAcceptor};

struct AppendVisitor<T> {
    history: Vec<T>
}

impl<T, E> Visitor<T, E> for AppendVisitor<T> where T : Clone {
    fn visit(&mut self, data:&T) -> Result<T, E>{
        self.history.push(data.clone());
        return Ok( data.clone() );
    }
}

#[test]
fn utilise_visitor_in_linked_list() {
    let mut list=LinkedList::new();
    for i in 0..10 {
        list.insert_back(&i);
    }

    let mut visitor=AppendVisitor{history:Vec::new()};
    VisitorAcceptor::<i32, String>::accept(&mut list, &mut visitor).unwrap();
    assert_eq!(visitor.history, vec![0,1,2,3,4,5,6,7,8,9]);
}
