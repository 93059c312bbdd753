pub mod aloc;
